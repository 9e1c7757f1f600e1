//! Kafka-API target (Redpanda, Apache Kafka).
//!
//! Leadership is observed through the Kafka Metadata API, the same way any
//! client learns it: each broker is asked over its own client port, so its
//! answer is that broker's own opinion — on an isolated zombie, a stale one.
//! Health is read from the admin API where there is one, and from every
//! broker's metadata where there is none.

use super::cluster::FaultTarget;
use super::docker::Docker;
use super::kmeta::{MetadataView, PartitionView};
use super::replog::unknown_leaders;
use crate::order::texts;
use crate::search::{
    count_from, count_text, find_from, find_text, leading_white, pieces, split_on, stands_at, trim,
    trim_front, trimmed,
};
use crate::text::{
    chars_of, find_char, first_of, is_digit, lines, lossy_text, parse_digits, parse_number,
    parse_uint, split_lines, string_of, text_lossy,
};
use vstd::prelude::*;
use vstd::slice::*;
use vstd::string::*;

verus! {

#[derive(Clone, Debug)]
pub struct KafkaTargetSpec {
    pub docker: Docker,
    /// Host-reachable client address per broker (`localhost:29090`, ...).
    pub client_addrs: Vec<String>,
    /// Redpanda admin API per broker (`localhost:29640`, ...); empty for
    /// Apache Kafka, which then uses the ISR view from metadata for health.
    pub admin_addrs: Vec<String>,
    /// Kafka node id of each broker index.
    pub node_ids: Vec<i32>,
}

pub struct KafkaTarget {
    pub spec: KafkaTargetSpec,
}

/// Where a node id first stands, from `i` on; -1 where it does not.
pub open spec fn index_from(ids: Seq<i32>, id: i32, i: int) -> int
    decreases ids.len() - i,
{
    if i < 0 || i >= ids.len() {
        -1
    } else if ids[i] == id {
        i
    } else {
        index_from(ids, id, i + 1)
    }
}

/// The leaders of the first `count` partitions, as broker indices.
pub open spec fn leader_indices(
    ids: Seq<i32>,
    parts: Seq<PartitionView>,
    count: u32,
) -> Seq<i32>
    decreases parts.len(),
{
    if parts.len() == 0 {
        Seq::new(count as nat, |i: int| -1i32)
    } else {
        let s = leader_indices(ids, parts.drop_last(), count);
        let p = parts.last();
        if p.error_code == 0 && 0 <= p.partition < count {
            s.update(p.partition as int, index_from(ids, p.leader, 0) as i32)
        } else {
            s
        }
    }
}

impl KafkaTarget {
    pub fn new(spec: KafkaTargetSpec) -> (r: Result<KafkaTarget, String>)
        ensures
            r is Ok && r->Ok_0.spec == spec,
    {
        Ok(KafkaTarget { spec })
    }

    /// The index of the broker with a node id; -1 where there is none.
    pub fn index_of(&self, node_id: i32) -> (r: i32)
        requires
            self.spec.node_ids@.len() <= i32::MAX,
        ensures
            r == index_from(self.spec.node_ids@, node_id, 0),
    {
        let ids: &Vec<i32> = &self.spec.node_ids;
        let mut i: usize = 0;
        while i < ids.len()
            invariant
                i <= ids@.len() <= i32::MAX,
                ids == self.spec.node_ids,
                index_from(ids@, node_id, i as int) == index_from(ids@, node_id, 0),
            decreases ids@.len() - i,
        {
            if ids[i] == node_id {
                return i as i32;
            }
            i += 1;
        }
        -1
    }

    /// Leader per partition, as broker indices; -1 where there is none.
    pub fn leaders_from(&self, view: &MetadataView, partitions: u32) -> (r: Vec<i32>)
        requires
            self.spec.node_ids@.len() <= i32::MAX,
        ensures
            r@ == leader_indices(self.spec.node_ids@, view.partitions@, partitions),
            r@.len() == partitions,
    {
        let mut out: Vec<i32> = unknown_leaders(partitions);
        let parts: &Vec<PartitionView> = &view.partitions;
        let ghost ids = self.spec.node_ids@;
        let ghost ps = parts@;
        let mut i: usize = 0;
        assert(ps.take(0) =~= Seq::empty());
        while i < parts.len()
            invariant
                i <= parts@.len(),
                ps == parts@,
                ids == self.spec.node_ids@,
                ids.len() <= i32::MAX,
                out@.len() == partitions,
                out@ == leader_indices(ids, ps.take(i as int), partitions),
            decreases parts@.len() - i,
        {
            proof {
                assert(ps.take(i + 1).drop_last() =~= ps.take(i as int));
                assert(ps.take(i + 1).last() == parts@[i as int]);
            }
            let p: &PartitionView = &parts[i];
            if p.error_code == 0 && p.partition >= 0 && (p.partition as u32) < partitions {
                out.set(p.partition as usize, self.index_of(p.leader));
            }
            i += 1;
        }
        assert(ps.take(i as int) =~= ps);
        out
    }
}

impl FaultTarget for KafkaTarget {
    open spec fn names(&self) -> Seq<Seq<char>> {
        texts(self.spec.docker.containers@)
    }

    open spec fn addresses(&self) -> Seq<Seq<char>> {
        texts(self.spec.client_addrs@)
    }

    fn broker_count(&self) -> usize {
        self.spec.client_addrs.len()
    }

    fn broker_name(&self, i: usize) -> String {
        self.spec.docker.containers[i].clone()
    }

    fn client_addr(&self, i: usize) -> String {
        self.spec.client_addrs[i].clone()
    }
}

/// The request for a path of an admin API.
pub fn http_request(addr: &str, path: &str) -> (r: String)
    ensures
        r@ == "GET "@ + path@ + " HTTP/1.0\r\nHost: "@ + addr@ + "\r\n\r\n"@,
{
    let mut r: String = "GET ".to_owned();
    r.append(path);
    r.append(" HTTP/1.0\r\nHost: ");
    r.append(addr);
    r.append("\r\n\r\n");
    r
}

/// The first line of a text; none where it has no line.
pub open spec fn first_line(s: Seq<char>) -> Seq<char> {
    if lines(s).len() > 0 {
        lines(s)[0]
    } else {
        Seq::empty()
    }
}

/// What a response says: its body, if its status is 200.
pub open spec fn body_of(text: Seq<char>) -> Result<Seq<char>, Seq<char>> {
    match find_from(text, "\r\n\r\n"@, 0) {
        None => Err("no http body"@),
        Some(k) => {
            let head = text.take(k);
            if stands_at(head, "HTTP/1.0 200"@, 0) || stands_at(head, "HTTP/1.1 200"@, 0) {
                Ok(text.skip(k + "\r\n\r\n"@.len()))
            } else {
                Err("http "@ + first_line(head))
            }
        },
    }
}

fn starts_with(s: &[char], t: &str) -> (r: bool)
    ensures
        r == stands_at(s@, t@, 0),
{
    let chars: Vec<char> = chars_of(t);
    if chars.len() > s.len() {
        return false;
    }
    crate::search::is_at(s, chars.as_slice(), 0)
}

/// The body of a response of an admin API.
pub fn http_body(bytes: &[u8]) -> (r: Result<String, String>)
    ensures
        match body_of(lossy_text(bytes@)) {
            Ok(body) => r is Ok && r->Ok_0@ == body,
            Err(text) => r is Err && r->Err_0@ == text,
        },
{
    response_body(text_lossy(bytes).as_str())
}

/// The body of a response, given as text.
pub fn response_body(text: &str) -> (r: Result<String, String>)
    ensures
        match body_of(text@) {
            Ok(body) => r is Ok && r->Ok_0@ == body,
            Err(text) => r is Err && r->Err_0@ == text,
        },
{
    let all: Vec<char> = chars_of(text);
    let mark: Vec<char> = chars_of("\r\n\r\n");
    let n: usize = all.len();
    match find_text(all.as_slice(), mark.as_slice()) {
        None => Err("no http body".to_owned()),
        Some(k) => {
            assert(k + mark@.len() <= n);
            let head: &[char] = slice_subrange(all.as_slice(), 0, k);
            assert(head@ =~= text@.take(k as int));
            if starts_with(head, "HTTP/1.0 200") || starts_with(head, "HTTP/1.1 200") {
                let body: &[char] = slice_subrange(all.as_slice(), k + mark.len(), n);
                assert(body@ =~= text@.skip(k + mark@.len()));
                return Ok(string_of(body));
            }
            let rows: Vec<Vec<char>> = split_lines(head);
            let mut e: String = "http ".to_owned();
            assert(rows@.len() == lines(head@).len()) by {
                assert(crate::text::char_rows(rows@).len() == rows@.len());
            }
            if rows.len() > 0 {
                assert(crate::text::char_rows(rows@)[0] == rows@[0]@);
                e.append(string_of(rows[0].as_slice()).as_str());
            } else {
                assert(e@ + Seq::<char>::empty() =~= e@);
            }
            Err(e)
        },
    }
}

/// A key of an object, in quotes.
pub open spec fn key_text(key: Seq<char>) -> Seq<char> {
    "\""@ + key + "\""@
}

/// What stands behind a key and its colon, without white space around the colon.
pub open spec fn after_key(s: Seq<char>, key: Seq<char>) -> Option<Seq<char>> {
    match find_from(s, key_text(key), 0) {
        None => None,
        Some(k) => {
            let rest = trim_front(s.skip(k + key_text(key).len()));
            if rest.len() > 0 && rest[0] == ':' {
                Some(trim_front(rest.skip(1)))
            } else {
                None
            }
        },
    }
}

fn skip_white(s: &[char], k: usize) -> (r: usize)
    requires
        k <= s@.len(),
    ensures
        k <= r <= s@.len(),
        s@.skip(r as int) == trim_front(s@.skip(k as int)),
{
    let rest: &[char] = slice_subrange(s, k, s.len());
    assert(rest@ =~= s@.skip(k as int));
    let n: usize = leading_white(rest);
    assert(s@.skip(k + n) =~= rest@.skip(n as int));
    k + n
}

/// Where that stands.
fn find_value(s: &[char], key: &str) -> (r: Option<usize>)
    ensures
        match after_key(s@, key@) {
            Some(rest) => r is Some && r->0 <= s@.len() && s@.skip(r->0 as int) == rest,
            None => r is None,
        },
{
    let mut quoted: String = "\"".to_owned();
    quoted.append(key);
    quoted.append("\"");
    let t: Vec<char> = chars_of(quoted.as_str());
    let n: usize = s.len();
    match find_text(s, t.as_slice()) {
        None => None,
        Some(k) => {
            assert(k + t@.len() <= n);
            let a: usize = skip_white(s, k + t.len());
            if a < n && s[a] == ':' {
                assert(s@.skip(a as int).skip(1) =~= s@.skip(a + 1));
                Some(skip_white(s, a + 1))
            } else {
                None
            }
        },
    }
}

/// How many characters at the front of `s` may stand in a number.
pub open spec fn numeral_len(s: Seq<char>) -> int
    decreases s.len(),
{
    if s.len() > 0 && (is_digit(s[0]) || s[0] == '-') {
        1 + numeral_len(s.skip(1))
    } else {
        0
    }
}

/// The number that a numeral stands for, where it fits in 64 bits.
pub open spec fn numeral_value(s: Seq<char>) -> Option<int> {
    if s.len() > 1 && s[0] == '-' {
        match parse_digits(s.skip(1), 0, 9_223_372_036_854_775_808) {
            Ok(n) => Some(-(n as int)),
            Err(_) => None,
        }
    } else {
        match parse_number(s, 9_223_372_036_854_775_807) {
            Ok(n) => Some(n as int),
            Err(_) => None,
        }
    }
}

pub proof fn lemma_numeral_len(s: Seq<char>, k: int)
    requires
        0 <= k <= s.len(),
        forall|i: int| 0 <= i < k ==> is_digit(#[trigger] s[i]) || s[i] == '-',
        k < s.len() ==> !is_digit(s[k]) && s[k] != '-',
    ensures
        numeral_len(s) == k,
    decreases k,
{
    if k > 0 {
        let t = s.skip(1);
        assert forall|i: int| 0 <= i < k - 1 implies is_digit(#[trigger] t[i]) || t[i] == '-' by {
            assert(t[i] == s[i + 1]);
        }
        lemma_numeral_len(t, k - 1);
    }
}

/// The number behind a key. A tiny field reader for the admin API's flat health
/// object — enough for `"leaderless_count": 0`.
pub fn json_number(body: &str, key: &str) -> (r: Option<i64>)
    ensures
        match after_key(body@, key@) {
            None => r is None,
            Some(rest) => match numeral_value(rest.take(numeral_len(rest))) {
                Some(n) => r is Some && r->0 == n,
                None => r is None,
            },
        },
{
    let s: Vec<char> = chars_of(body);
    let at: usize = match find_value(s.as_slice(), key) {
        Some(k) => k,
        None => {
            return None;
        },
    };
    let ghost rest = body@.skip(at as int);
    let mut end: usize = at;
    while end < s.len() && (('0' <= s[end] && s[end] <= '9') || s[end] == '-')
        invariant
            at <= end <= s@.len(),
            s@ == body@,
            rest == body@.skip(at as int),
            forall|i: int| 0 <= i < end - at ==> is_digit(#[trigger] rest[i]) || rest[i] == '-',
        decreases s@.len() - end,
    {
        assert(rest[end - at] == s@[end as int]);
        end += 1;
    }
    proof {
        lemma_numeral_len(rest, end - at);
    }
    let numeral: &[char] = slice_subrange(s.as_slice(), at, end);
    assert(numeral@ =~= rest.take(end - at));
    if numeral.len() > 1 && numeral[0] == '-' {
        let digits: &[char] = slice_subrange(numeral, 1, numeral.len());
        assert(digits@ =~= numeral@.skip(1));
        assert(digits@[0] == rest[1]);
        match parse_uint(digits, 9_223_372_036_854_775_808) {
            Ok(n) => Some((-(n as i128)) as i64),
            Err(_) => None,
        }
    } else {
        match parse_uint(numeral, 9_223_372_036_854_775_807) {
            Ok(n) => Some(n as i64),
            Err(_) => None,
        }
    }
}

/// How many items the array at the front of a text holds.
pub open spec fn array_len(rest: Seq<char>) -> Option<nat> {
    if rest.len() == 0 || rest[0] != '[' {
        None
    } else {
        let inside = rest.skip(1);
        let k = first_of(inside, ']');
        if k == inside.len() {
            None
        } else {
            let inner = trimmed(inside.take(k));
            if inner.len() == 0 {
                Some(0)
            } else {
                Some(pieces(inner, ',').len())
            }
        }
    }
}

/// How many items the array behind a key holds — enough for
/// `"nodes_down": []`.
pub fn json_array_len(body: &str, key: &str) -> (r: Option<usize>)
    ensures
        match after_key(body@, key@) {
            None => r is None,
            Some(rest) => match array_len(rest) {
                Some(n) => r is Some && r->0 == n,
                None => r is None,
            },
        },
{
    let s: Vec<char> = chars_of(body);
    let at: usize = match find_value(s.as_slice(), key) {
        Some(k) => k,
        None => {
            return None;
        },
    };
    let ghost rest = body@.skip(at as int);
    if at == s.len() || s[at] != '[' {
        return None;
    }
    let inside: &[char] = slice_subrange(s.as_slice(), at + 1, s.len());
    assert(inside@ =~= rest.skip(1));
    let k: usize = find_char(inside, ']');
    if k == inside.len() {
        return None;
    }
    let part: &[char] = slice_subrange(inside, 0, k);
    assert(part@ =~= rest.skip(1).take(k as int));
    let inner: Vec<char> = trim(part);
    if inner.len() == 0 {
        return Some(0);
    }
    let items: Vec<Vec<char>> = split_on(inner.as_slice(), ',');
    assert(crate::text::char_rows(items@).len() == items@.len());
    Some(items.len())
}

/// Whether one broker sees `n` brokers, and a leader and a full ISR on every
/// partition.
pub open spec fn sees_whole(v: MetadataView, partitions: u32, n: usize) -> bool {
    &&& v.brokers@.len() == n
    &&& v.partitions@.len() == partitions
    &&& forall|i: int|
        0 <= i < v.partitions@.len() ==> {
            let p = #[trigger] v.partitions@[i];
            p.error_code == 0 && p.leader >= 0 && p.isr@.len() == p.replicas@.len()
        }
}

/// Whether one broker sees a whole cluster.
pub fn sees_whole_cluster(v: &MetadataView, partitions: u32, n: usize) -> (r: bool)
    ensures
        r == sees_whole(*v, partitions, n),
{
    if v.brokers.len() != n || v.partitions.len() != partitions as usize {
        return false;
    }
    let mut i: usize = 0;
    while i < v.partitions.len()
        invariant
            i <= v.partitions@.len(),
            forall|j: int|
                0 <= j < i ==> {
                    let p = #[trigger] v.partitions@[j];
                    p.error_code == 0 && p.leader >= 0 && p.isr@.len() == p.replicas@.len()
                },
        decreases v.partitions@.len() - i,
    {
        let p: &PartitionView = &v.partitions[i];
        if p.error_code != 0 || p.leader < 0 || p.isr.len() != p.replicas.len() {
            assert(!sees_whole(*v, partitions, n)) by {
                assert(v.partitions@[i as int] == *p);
            }
            return false;
        }
        i += 1;
    }
    true
}

/// The number behind a key.
pub open spec fn number_of(s: Seq<char>, key: Seq<char>) -> Option<int> {
    match after_key(s, key) {
        None => None,
        Some(rest) => numeral_value(rest.take(numeral_len(rest))),
    }
}

/// The length of the array behind a key.
pub open spec fn array_len_of(s: Seq<char>, key: Seq<char>) -> Option<nat> {
    match after_key(s, key) {
        None => None,
        Some(rest) => array_len(rest),
    }
}

/// Whether the admin API says that `n` brokers are up and every partition is
/// led and replicated.
pub open spec fn admin_says_healthy(overview: Seq<char>, brokers: Seq<char>, n: usize) -> bool {
    &&& find_from(overview, "\"is_healthy\": true"@, 0) is Some
    &&& number_of(overview, "leaderless_count"@) == Some(0int)
    &&& number_of(overview, "under_replicated_count"@) == Some(0int)
    &&& array_len_of(overview, "nodes_down"@) == Some(0nat)
    &&& array_len_of(overview, "all_nodes"@) == Some(n as nat)
    &&& count_from(brokers, "\"is_alive\": true"@, 0) == n
    &&& count_from(brokers, "\"membership_status\": \"active\""@, 0) == n
}

fn holds(s: &str, t: &str) -> (r: bool)
    ensures
        r == (find_from(s@, t@, 0) is Some),
{
    let a: Vec<char> = chars_of(s);
    let b: Vec<char> = chars_of(t);
    match find_text(a.as_slice(), b.as_slice()) {
        Some(_) => true,
        None => false,
    }
}

fn count_in(s: &str, t: &str) -> (r: usize)
    requires
        t@.len() > 0,
    ensures
        r == count_from(s@, t@, 0),
{
    let a: Vec<char> = chars_of(s);
    let b: Vec<char> = chars_of(t);
    count_text(a.as_slice(), b.as_slice())
}

fn number_is(body: &str, key: &str, n: i64) -> (r: bool)
    ensures
        r == (number_of(body@, key@) == Some(n as int)),
{
    match json_number(body, key) {
        Some(k) => k == n,
        None => false,
    }
}

fn array_len_is(body: &str, key: &str, n: usize) -> (r: bool)
    ensures
        r == (array_len_of(body@, key@) == Some(n as nat)),
{
    match json_array_len(body, key) {
        Some(k) => k == n,
        None => false,
    }
}

/// Whether the admin API says that `n` brokers are up and every partition is
/// led and replicated.
pub fn is_admin_healthy(overview: &str, brokers: &str, n: usize) -> (r: bool)
    ensures
        r == admin_says_healthy(overview@, brokers@, n),
{
    proof {
        reveal_strlit("\"is_alive\": true");
        reveal_strlit("\"membership_status\": \"active\"");
    }
    holds(overview, "\"is_healthy\": true") && number_is(overview, "leaderless_count", 0)
        && number_is(overview, "under_replicated_count", 0) && array_len_is(
        overview,
        "nodes_down",
        0,
    ) && array_len_is(overview, "all_nodes", n) && count_in(brokers, "\"is_alive\": true") == n
        && count_in(brokers, "\"membership_status\": \"active\"") == n
}

} // verus!
