//! What counts as leading, led and whole in what clusters say of themselves.

use super::cluster::{carries, faults_in, law_fault_named, Fault};
use super::kafka::{
    admin_says_healthy, array_len_of, body_of, index_from, key_text, leader_indices,
    lemma_numeral_len, number_of, sees_whole,
};
use super::kmeta::{
    read_broker, read_i32, read_ids, read_partition, read_partitions, read_string, read_topics,
    response_length, MetadataInfo, MetadataView, PartitionInfo, PartitionView,
};
use super::preset::{
    config_error, config_says, faults_flag, first_bad, late_flags, number_flag, text_flag,
    value_of_flag,
};
use super::probe::{cells_text, moved_to, ProbeRow};
use super::process::{leader_in, leads_any};
use super::replog::{fully_replicated, isr_len, leaders_of};
use super::run::time_is_up;
use super::run_laws::law_leaders;
use super::schedule::{role_of, RunConfig};
use super::workload::{level_of, AckLevel};
use crate::client::laws::{law_leader_found, lemma_topic_from};
use crate::codec::{be, bits32, law_be_roundtrip, lemma_pow256_values};
use crate::harness::announced;
use crate::harness::bench::{addr_from, leader_addrs, part_ready, topic_ready};
use crate::proto::lookup::partition_of;
use crate::proto::{ClusterMeta, PartitionMeta};
use crate::search::{find_from, lemma_first_of_none, pieces, trim_front, trimmed};
use crate::text::{
    decimal, first_of, is_digit, law_parse_decimal, lemma_decimal_digits, lemma_first_of,
    lemma_first_of_bound, lossy_text,
};
use vstd::prelude::*;

verus! {

/// A cluster is whole where it has all its brokers and the ISR of every
/// partition of the topic has all of them.
pub proof fn law_whole(meta: ClusterMeta, t: int, partitions: u32, n: usize)
    requires
        0 <= t < meta.topics@.len(),
        forall|j: int| 0 <= j < t ==> (#[trigger] meta.topics@[j]).name@ != meta.topics@[t].name@,
        meta.topics@[t].partitions@.len() == partitions,
        forall|p: int|
            0 <= p < partitions ==> (#[trigger] meta.topics@[t].partitions@[p]).partition == p,
    ensures
        fully_replicated(meta, meta.topics@[t].name@, partitions, n) <==> meta.brokers@.len() == n
            && forall|p: int|
            0 <= p < partitions ==> (#[trigger] meta.topics@[t].partitions@[p]).isr@.len() == n,
{
    let parts = meta.topics@[t].partitions@;
    let name = meta.topics@[t].name@;
    assert forall|p: int| 0 <= p < partitions implies isr_len(meta, name, p as u32) == (
    #[trigger] parts[p]).isr@.len() by {
        assert forall|j: int| 0 <= j < p implies (#[trigger] meta.topics@[t].partitions@[j]).partition
            != meta.topics@[t].partitions@[p].partition by {
            assert(parts[j].partition == j && parts[p].partition == p);
        }
        law_leader_found(meta, t, p, 0);
        assert(parts[p].partition == p);
    }
    if fully_replicated(meta, name, partitions, n) {
        assert forall|p: int| 0 <= p < partitions implies (
        #[trigger] meta.topics@[t].partitions@[p]).isr@.len() == n by {
            assert(isr_len(meta, name, p as u32) == n);
        }
    }
    if meta.brokers@.len() == n && forall|p: int|
        0 <= p < partitions ==> (#[trigger] meta.topics@[t].partitions@[p]).isr@.len() == n {
        assert forall|p: u32| p < partitions implies #[trigger] isr_len(meta, name, p) == n by {
            assert(parts[p as int].isr@.len() == n);
        }
    }
}

/// A Kafka cluster is whole where it lists all its brokers, and every partition
/// without error, led and in sync on all its replicas.
pub proof fn law_kafka_whole(v: MetadataView, partitions: u32, n: usize)
    ensures
        sees_whole(v, partitions, n) <==> v.brokers@.len() == n && v.partitions@.len() == partitions
            && forall|i: int|
            0 <= i < v.partitions@.len() ==> (#[trigger] v.partitions@[i]).error_code == 0
                && v.partitions@[i].leader >= 0 && v.partitions@[i].isr@.len()
                == v.partitions@[i].replicas@.len(),
{
}

proof fn lemma_index(ids: Seq<i32>, i: int, k: int)
    requires
        0 <= i <= k < ids.len(),
        forall|j: int| i <= j < k ==> ids[j] != ids[k],
    ensures
        index_from(ids, ids[k], i) == k,
    decreases k - i,
{
    if i < k {
        assert(ids[i] != ids[k]);
        lemma_index(ids, i + 1, k);
    }
}

/// The leader of a Kafka partition is the broker with its node id, by place in
/// the target's list; and -1 where the partition has an error or is not named.
pub proof fn law_kafka_leaders(
    ids: Seq<i32>,
    parts: Seq<PartitionView>,
    count: u32,
    i: int,
    k: int,
)
    requires
        0 <= i < parts.len(),
        0 <= parts[i].partition < count,
        forall|a: int, b: int|
            0 <= a < b < parts.len() ==> (#[trigger] parts[a]).partition != (
            #[trigger] parts[b]).partition,
        0 <= k < ids.len() <= i32::MAX,
        forall|a: int, b: int| 0 <= a < b < ids.len() ==> ids[a] != ids[b],
    ensures
        leader_indices(ids, parts, count).len() == count,
        parts[i].error_code == 0 && parts[i].leader == ids[k] ==> leader_indices(ids, parts, count)[
        parts[i].partition as int] == k,
        parts[i].error_code != 0 ==> leader_indices(ids, parts, count)[parts[i].partition as int]
            == -1,
    decreases parts.len(),
{
    let head = parts.drop_last();
    let last = parts.len() - 1;
    assert forall|a: int, b: int| 0 <= a < b < head.len() implies (#[trigger] head[a]).partition
        != (#[trigger] head[b]).partition by {
        assert(head[a] == parts[a] && head[b] == parts[b]);
    }
    lemma_index(ids, 0, k);
    if i < last {
        assert(head[i] == parts[i]);
        law_kafka_leaders(ids, head, count, i, k);
        assert(parts[i].partition != parts[last].partition);
    } else {
        lemma_unnamed(ids, head, count, parts[i].partition as int);
    }
}

proof fn lemma_unnamed(ids: Seq<i32>, parts: Seq<PartitionView>, count: u32, p: int)
    requires
        0 <= p < count,
        forall|i: int| 0 <= i < parts.len() ==> (#[trigger] parts[i]).partition != p,
    ensures
        leader_indices(ids, parts, count).len() == count,
        leader_indices(ids, parts, count)[p] == -1,
    decreases parts.len(),
{
    if parts.len() > 0 {
        let head = parts.drop_last();
        assert forall|i: int| 0 <= i < head.len() implies (#[trigger] head[i]).partition != p by {
            assert(head[i] == parts[i]);
        }
        lemma_unnamed(ids, head, count, p);
        assert(parts[parts.len() - 1].partition != p);
    }
}

/// The leaders that a cluster names for a topic, partition by partition.
pub proof fn law_topic_leaders(meta: ClusterMeta, t: int, count: u32, i: int)
    requires
        0 <= t < meta.topics@.len(),
        forall|j: int| 0 <= j < t ==> (#[trigger] meta.topics@[j]).name@ != meta.topics@[t].name@,
        0 <= i < meta.topics@[t].partitions@.len(),
        meta.topics@[t].partitions@[i].partition < count,
        forall|a: int, b: int|
            0 <= a < b < meta.topics@[t].partitions@.len() ==> (
            #[trigger] meta.topics@[t].partitions@[a]).partition != (
            #[trigger] meta.topics@[t].partitions@[b]).partition,
    ensures
        leaders_of(meta, meta.topics@[t].name@, count)[meta.topics@[t].partitions@[i].partition as int]
            == meta.topics@[t].partitions@[i].leader,
{
    let parts = meta.topics@[t].partitions@;
    lemma_topic_from(meta.topics@, meta.topics@[t].name@, 0, t);
    assert forall|a: int, b: int| 0 <= a < b < parts.len() implies (#[trigger] parts[a]).partition
        != (#[trigger] parts[b]).partition by {
        assert(meta.topics@[t].partitions@[a].partition
            != meta.topics@[t].partitions@[b].partition);
    }
    law_leaders(parts, count, parts[i].partition as int);
}

/// A bench starts when its topic has its partitions, each of them led and in
/// sync on as many brokers as it has copies.
pub proof fn law_bench_ready(meta: ClusterMeta, t: int, partitions: u32, rf: u32)
    requires
        0 <= t < meta.topics@.len(),
        forall|j: int| 0 <= j < t ==> (#[trigger] meta.topics@[j]).name@ != meta.topics@[t].name@,
    ensures
        topic_ready(meta, meta.topics@[t].name@, partitions, rf) <==> meta.topics@[t].partitions@.len()
            == partitions && forall|i: int|
            0 <= i < partitions ==> (#[trigger] meta.topics@[t].partitions@[i]).leader >= 0
                && meta.topics@[t].partitions@[i].isr@.len() == rf,
{
    lemma_topic_from(meta.topics@, meta.topics@[t].name@, 0, t);
    let parts = meta.topics@[t].partitions@;
    if topic_ready(meta, meta.topics@[t].name@, partitions, rf) {
        assert forall|i: int| 0 <= i < partitions implies (
        #[trigger] meta.topics@[t].partitions@[i]).leader >= 0
            && meta.topics@[t].partitions@[i].isr@.len() == rf by {
            assert(part_ready(parts[i], rf));
        }
    }
}

/// A broker's role in a fault is leader where it leads the partition, and in a
/// process fault where it leads any.
pub proof fn law_roles(leader: i32, victim: usize, meta: ClusterMeta, topic: Seq<char>, n: u32)
    ensures
        role_of(leader, victim) == (if leader >= 0 && leader as int == victim {
            "leader"@
        } else {
            "follower"@
        }),
        leads_any(meta, topic, n, victim) <==> exists|p: u32|
            p < n && (#[trigger] partition_of(meta, topic, p) matches Some(m) && m.leader as int
                == victim),
{
    if leads_any(meta, topic, n, victim) {
        let p = choose|p: u32| p < n && #[trigger] leader_in(meta, topic, p) == victim;
        assert(partition_of(meta, topic, p) is Some);
    }
    if exists|p: u32|
        p < n && (#[trigger] partition_of(meta, topic, p) matches Some(m) && m.leader as int
            == victim) {
        let p = choose|p: u32|
            p < n && (#[trigger] partition_of(meta, topic, p) matches Some(m) && m.leader as int
                == victim);
        assert(leader_in(meta, topic, p) == victim);
    }
}

/// A run strikes until its time is up.
pub proof fn law_run_time(cfg: RunConfig, now_ms: u64)
    ensures
        time_is_up(cfg, now_ms) <==> now_ms >= cfg.duration_secs * 1000,
{
}

/// A number that a flag gives is read as it stands; a flag that is not given
/// has its default.
pub proof fn law_number_flag(args: Seq<String>, flag: Seq<char>, default: u64, n: u64)
    ensures
        value_of_flag(args, flag) is None ==> number_flag(args, flag, default) == Ok::<
            u64,
            Seq<char>,
        >(default),
        value_of_flag(args, flag) == Some(decimal(n as nat)) ==> number_flag(args, flag, default)
            == Ok::<u64, Seq<char>>(n),
{
    law_parse_decimal(n as nat, u64::MAX as nat);
}

/// The bytes of a row of ids, in big endian.
pub open spec fn id_bytes(ids: Seq<i32>) -> Seq<u8>
    decreases ids.len(),
{
    if ids.len() == 0 {
        Seq::empty()
    } else {
        be(bits32(ids[0]), 4) + id_bytes(ids.skip(1))
    }
}

proof fn lemma_read_i32(x: i32, rest: Seq<u8>)
    ensures
        read_i32(be(bits32(x), 4) + rest) == Some((x as int, rest)),
{
    crate::codec::lemma_pow256_values();
    law_be_roundtrip(bits32(x), 4);
    let s = be(bits32(x), 4) + rest;
    assert(be(bits32(x), 4).len() == 4);
    assert(s.take(4) =~= be(bits32(x), 4));
    assert(s.skip(4) =~= rest);
}

proof fn lemma_read_ids(ids: Seq<i32>, rest: Seq<u8>)
    ensures
        read_ids(ids.len() as int, id_bytes(ids) + rest) == Some((ids, rest)),
    decreases ids.len(),
{
    if ids.len() == 0 {
        assert(id_bytes(ids) + rest =~= rest);
        assert(ids =~= Seq::empty());
    } else {
        let tail = ids.skip(1);
        lemma_read_ids(tail, rest);
        lemma_read_i32(ids[0], id_bytes(tail) + rest);
        assert(id_bytes(ids) + rest =~= be(bits32(ids[0]), 4) + (id_bytes(tail) + rest));
        assert(seq![ids[0]] + tail =~= ids);
    }
}

/// A partition in a Kafka answer is read as it was written: error code, number,
/// leader, replicas and ISR, in big endian.
pub proof fn law_kafka_partition(p: PartitionInfo, rest: Seq<u8>)
    requires
        sendable(p),
    ensures
        read_partition(
            be(p.error_code as nat, 2) + (be(bits32(p.partition), 4) + (be(bits32(p.leader), 4) + (be(
                p.replicas.len(),
                4,
            ) + (id_bytes(p.replicas) + (be(p.isr.len(), 4) + (id_bytes(p.isr) + rest)))))),
        ) == Some((p, rest)),
{
    crate::codec::lemma_pow256_values();
    law_be_roundtrip(p.error_code as nat, 2);
    let f = id_bytes(p.isr) + rest;
    let e = be(p.isr.len(), 4) + f;
    let d = id_bytes(p.replicas) + e;
    let c = be(p.replicas.len(), 4) + d;
    let b = be(bits32(p.leader), 4) + c;
    let a = be(bits32(p.partition), 4) + b;
    let s = be(p.error_code as nat, 2) + a;
    assert(be(p.error_code as nat, 2).len() == 2);
    assert(s.take(2) =~= be(p.error_code as nat, 2));
    assert(s.skip(2) =~= a);
    lemma_read_i32(p.partition, b);
    lemma_read_i32(p.leader, c);
    assert(bits32(p.replicas.len() as i32) == p.replicas.len());
    assert(bits32(p.isr.len() as i32) == p.isr.len());
    lemma_read_i32(p.replicas.len() as i32, d);
    lemma_read_ids(p.replicas, e);
    lemma_read_i32(p.isr.len() as i32, f);
    lemma_read_ids(p.isr, rest);
}

/// The number that stands behind a key, a colon and a space is read, up to the
/// first character that is not part of it.
pub proof fn law_json_number(s: Seq<char>, key: Seq<char>, k: int, n: u64, rest: Seq<char>)
    requires
        find_from(s, key_text(key), 0) == Some(k),
        0 <= k,
        k + key_text(key).len() <= s.len(),
        s.skip(k + key_text(key).len()) == seq![':', ' '] + (decimal(n as nat) + rest),
        n <= i64::MAX,
        rest.len() > 0 ==> !(is_digit(rest[0]) || rest[0] == '-'),
    ensures
        number_of(s, key) == Some(n as int),
{
    let digits = decimal(n as nat);
    let value = digits + rest;
    let behind = seq![':', ' '] + value;
    lemma_decimal_digits(n as nat);
    assert(is_digit(digits[0]));
    reveal_with_fuel(trim_front, 3);
    assert(behind[0] == ':');
    assert(behind.skip(1)[0] == ' ');
    assert(behind.skip(1).skip(1) =~= value);
    assert(value[0] == digits[0]);
    assert(trim_front(behind) == behind);
    assert(trim_front(behind.skip(1)) == value);
    assert forall|i: int| 0 <= i < digits.len() implies is_digit(#[trigger] value[i]) || value[i]
        == '-' by {
        assert(value[i] == digits[i]);
    }
    lemma_numeral_len(value, digits.len() as int);
    assert(value.take(digits.len() as int) =~= digits);
    law_parse_decimal(n as nat, 9_223_372_036_854_775_807);
}

/// Where a key is missing, there is no number.
pub proof fn law_json_missing(s: Seq<char>, key: Seq<char>)
    requires
        find_from(s, key_text(key), 0) is None,
    ensures
        number_of(s, key) is None,
        array_len_of(s, key) is None,
{
}

/// The body of an answer is what stands behind the first empty line, where its
/// status is 200; any other status is an error.
pub proof fn law_http_body(text: Seq<char>, k: int)
    requires
        find_from(text, "\r\n\r\n"@, 0) == Some(k),
        0 <= k <= text.len() - 4,
    ensures
        ({
            let good = k >= 12 && (text.take(12) == "HTTP/1.0 200"@ || text.take(12)
                == "HTTP/1.1 200"@);
            &&& good ==> body_of(text) == Ok::<Seq<char>, Seq<char>>(text.skip(k + 4))
            &&& !good ==> body_of(text) is Err
        }),
{
    reveal_strlit("\r\n\r\n");
    reveal_strlit("HTTP/1.0 200");
    reveal_strlit("HTTP/1.1 200");
    let head = text.take(k);
    if k >= 12 {
        assert(head.subrange(0, 12) =~= text.take(12));
    }
}

/// A cluster is healthy where its admin interface counts no partition without a
/// leader or with too few copies and no node down, and lists all its nodes,
/// alive and active.
pub proof fn law_admin_healthy(overview: Seq<char>, brokers: Seq<char>, n: usize)
    ensures
        admin_says_healthy(overview, brokers, n) ==> number_of(overview, "leaderless_count"@)
            == Some(0int) && number_of(overview, "under_replicated_count"@) == Some(0int)
            && array_len_of(overview, "nodes_down"@) == Some(0nat) && array_len_of(
            overview,
            "all_nodes"@,
        ) == Some(n as nat) && find_from(overview, "\"is_healthy\": true"@, 0) is Some,
{
}

/// A list of faults is read in order.
pub proof fn law_fault_list(fs: Seq<Fault>)
    ensures
        faults_in(fs.map_values(|f: Fault| f.label())) == Ok::<Seq<Fault>, Seq<char>>(fs),
    decreases fs.len(),
{
    let names = fs.map_values(|f: Fault| f.label());
    if fs.len() == 0 {
        assert(fs =~= Seq::empty());
    } else {
        let head = fs.drop_last();
        law_fault_list(head);
        assert(names.drop_last() =~= head.map_values(|f: Fault| f.label()));
        assert(names.last() == fs.last().label());
        reveal_strlit("kill");
        reveal_strlit("pause");
        reveal_strlit("isolate");
        law_fault_named(fs.last());
        assert(head.push(fs.last()) =~= fs);
    }
}

/// A leader has moved where a majority names another broker than the victim.
pub proof fn law_moved(views: Seq<Option<Vec<i32>>>, victim: usize, l: i32)
    ensures
        moved_to(views, victim, l) <==> carries(views, 0, l) && l as int != victim,
{
}

/// The leaders to dial are those of the partitions, in order, at the addresses
/// that the metadata lists; where one is not listed there are none to dial.
pub proof fn law_dialled(brokers: Seq<(u32, String)>, parts: Seq<PartitionMeta>, p: int)
    requires
        0 <= p < parts.len(),
    ensures
        leader_addrs(brokers, parts) matches Some(a) ==> a.len() == parts.len() && addr_from(
            brokers,
            parts[p].leader as u32,
            0,
        ) == Some(a[p]),
        addr_from(brokers, parts[p].leader as u32, 0) is None ==> leader_addrs(brokers, parts) is None,
    decreases parts.len(),
{
    let head = parts.drop_last();
    if p < head.len() {
        law_dialled(brokers, head, p);
        assert(head[p] == parts[p]);
    } else if head.len() > 0 {
        law_dialled(brokers, head, 0);
    } else {
        assert(leader_addrs(brokers, head) == Some(Seq::<Seq<char>>::empty()));
    }
}

/// An address is that of the first entry with the id.
pub proof fn law_addr_listed(brokers: Seq<(u32, String)>, i: int, k: int)
    requires
        0 <= i <= k < brokers.len(),
        forall|j: int| i <= j < k ==> (#[trigger] brokers[j]).0 != brokers[k].0,
    ensures
        addr_from(brokers, brokers[k].0, i) == Some(brokers[k].1@),
    decreases k - i,
{
    if i < k {
        assert(brokers[i].0 != brokers[k].0);
        law_addr_listed(brokers, i + 1, k);
    }
}

proof fn lemma_last_piece(q: Seq<char>, addr: Seq<char>)
    requires
        forall|i: int| 0 <= i < addr.len() ==> #[trigger] addr[i] != ' ',
    ensures
        pieces(q + (seq![' '] + addr), ' ').len() > 0,
        pieces(q + (seq![' '] + addr), ' ').last() == addr,
    decreases q.len(),
{
    let s = q + (seq![' '] + addr);
    let k = first_of(s, ' ');
    lemma_first_of_bound(s, ' ');
    lemma_first_of_none(s, ' ');
    assert(s[q.len() as int] == ' ');
    assert(k <= q.len());
    if k == q.len() {
        assert(s.skip(k + 1) =~= addr);
        lemma_first_of(addr, ' ', addr.len() as int);
        assert(pieces(addr, ' ') == seq![addr]);
        assert(pieces(s, ' ') =~= seq![s.take(k), addr]);
    } else {
        let r = q.skip(k + 1);
        lemma_last_piece(r, addr);
        assert(s.skip(k + 1) =~= r + (seq![' '] + addr));
        let ps = pieces(s.skip(k + 1), ' ');
        assert(pieces(s, ' ') == seq![s.take(k)] + ps);
        assert((seq![s.take(k)] + ps).last() == ps.last());
    }
}

/// A process that says where it is listening is reached there.
pub proof fn law_announced(line: Seq<char>, q: Seq<char>, addr: Seq<char>)
    requires
        trimmed(line) == q + (seq![' '] + addr),
        addr.len() > 0,
        forall|i: int| 0 <= i < addr.len() ==> #[trigger] addr[i] != ' ',
        find_from(line, "listening on"@, 0) is Some,
    ensures
        announced(line) == Ok::<Seq<char>, Seq<char>>(addr),
{
    lemma_last_piece(q, addr);
}

/// The bytes of the partitions of a topic in a Kafka answer, and what follows
/// them.
pub open spec fn partitions_bytes(ps: Seq<PartitionInfo>, rest: Seq<u8>) -> Seq<u8>
    decreases ps.len(),
{
    if ps.len() == 0 {
        rest
    } else {
        let p = ps[0];
        be(p.error_code as nat, 2) + (be(bits32(p.partition), 4) + (be(bits32(p.leader), 4) + (be(
            p.replicas.len(),
            4,
        ) + (id_bytes(p.replicas) + (be(p.isr.len(), 4) + (id_bytes(p.isr) + partitions_bytes(
            ps.skip(1),
            rest,
        )))))))
    }
}

/// Numbers that their fields can hold.
pub open spec fn sendable(p: PartitionInfo) -> bool {
    p.error_code >= 0 && p.replicas.len() <= i32::MAX && p.isr.len() <= i32::MAX
}

proof fn lemma_read_partitions(ps: Seq<PartitionInfo>, rest: Seq<u8>)
    requires
        forall|i: int| 0 <= i < ps.len() ==> sendable(#[trigger] ps[i]),
    ensures
        read_partitions(ps.len() as int, partitions_bytes(ps, rest)) == Some((ps, rest)),
    decreases ps.len(),
{
    if ps.len() == 0 {
        assert(ps =~= Seq::empty());
    } else {
        let tail = ps.skip(1);
        let p = ps[0];
        assert forall|i: int| 0 <= i < tail.len() implies sendable(#[trigger] tail[i]) by {
            assert(tail[i] == ps[i + 1]);
        }
        lemma_read_partitions(tail, rest);
        law_kafka_partition(p, partitions_bytes(tail, rest));
        assert(seq![p] + tail =~= ps);
    }
}

proof fn lemma_read_text(name: Seq<u8>, rest: Seq<u8>)
    requires
        name.len() <= i16::MAX,
    ensures
        read_string(be(name.len(), 2) + (name + rest)) == Some((lossy_text(name), rest)),
{
    crate::codec::lemma_pow256_values();
    law_be_roundtrip(name.len(), 2);
    let t = name + rest;
    let s = be(name.len(), 2) + t;
    assert(s.take(2) =~= be(name.len(), 2));
    assert(s.skip(2) =~= t);
    assert(t.take(name.len() as int) =~= name);
    assert(t.skip(name.len() as int) =~= rest);
}

/// A broker in a Kafka answer is read with its node id, host and port, whatever
/// its rack.
pub proof fn law_kafka_broker(id: i32, host: Seq<u8>, port: i32, rack: Seq<u8>, rest: Seq<u8>)
    requires
        host.len() <= i16::MAX,
        rack.len() <= i16::MAX,
    ensures
        read_broker(
            be(bits32(id), 4) + (be(host.len(), 2) + (host + (be(bits32(port), 4) + (be(
                rack.len(),
                2,
            ) + (rack + rest))))),
        ) == Some(((id, lossy_text(host), port), rest)),
{
    let d = be(rack.len(), 2) + (rack + rest);
    let c = be(bits32(port), 4) + d;
    let b = be(host.len(), 2) + (host + c);
    lemma_read_i32(id, b);
    lemma_read_text(host, c);
    lemma_read_i32(port, d);
    lemma_read_text(rack, rest);
}

/// The partitions of the topic that was asked for are taken from a Kafka answer,
/// all of them, with the topic's error; those of other topics are passed over.
pub proof fn law_kafka_topic(
    view: MetadataInfo,
    error: i16,
    name: Seq<u8>,
    internal: u8,
    ps: Seq<PartitionInfo>,
    topic: Seq<char>,
)
    requires
        error >= 0,
        name.len() <= i16::MAX,
        ps.len() <= i32::MAX,
        forall|i: int| 0 <= i < ps.len() ==> sendable(#[trigger] ps[i]),
    ensures
        ({
            let s = be(error as nat, 2) + (be(name.len(), 2) + (name + (seq![internal] + (be(
                ps.len(),
                4,
            ) + partitions_bytes(ps, Seq::empty())))));
            read_topics(1, s, topic, view) == Some(
                if lossy_text(name) == topic {
                    MetadataInfo { topic_error: error, partitions: ps, ..view }
                } else {
                    view
                },
            )
        }),
{
    crate::codec::lemma_pow256_values();
    law_be_roundtrip(error as nat, 2);
    let rest = Seq::<u8>::empty();
    let d = partitions_bytes(ps, rest);
    let c = be(ps.len(), 4) + d;
    let b = seq![internal] + c;
    let a = be(name.len(), 2) + (name + b);
    let s = be(error as nat, 2) + a;
    assert(s.take(2) =~= be(error as nat, 2));
    assert(s.skip(2) =~= a);
    lemma_read_text(name, b);
    assert(b[0] == internal);
    assert(b.skip(1) =~= c);
    assert(bits32(ps.len() as i32) == ps.len());
    lemma_read_i32(ps.len() as i32, d);
    lemma_read_partitions(ps, rest);
    reveal_with_fuel(read_topics, 2);
}

/// What a run was asked for is what it does: each number that a flag gives is
/// taken, and what no flag gives has its default.
pub proof fn law_run_config(args: Seq<String>, c: RunConfig, n: u64)
    requires
        config_says(args, c),
    ensures
        value_of_flag(args, "--seed"@) == Some(decimal(n as nat)) ==> c.seed == n,
        value_of_flag(args, "--seed"@) is None ==> c.seed == 1,
        value_of_flag(args, "--duration-secs"@) == Some(decimal(n as nat)) ==> c.duration_secs == n,
        value_of_flag(args, "--duration-secs"@) is None ==> c.duration_secs == 120,
        value_of_flag(args, "--pace-ms"@) == Some(decimal(n as nat)) ==> c.pace_ms == n,
        value_of_flag(args, "--pace-ms"@) is None ==> c.pace_ms == 25,
        value_of_flag(args, "--min-fault-gap-ms"@) == Some(decimal(n as nat)) ==> c.min_gap_ms == n,
        value_of_flag(args, "--min-fault-gap-ms"@) is None ==> c.min_gap_ms == 800,
        value_of_flag(args, "--max-fault-gap-ms"@) == Some(decimal(n as nat)) ==> c.max_gap_ms == n,
        value_of_flag(args, "--max-fault-gap-ms"@) is None ==> c.max_gap_ms == 3000,
        value_of_flag(args, "--min-heal-ms"@) == Some(decimal(n as nat)) ==> c.min_heal_ms == n,
        value_of_flag(args, "--min-heal-ms"@) is None ==> c.min_heal_ms == 3000,
        value_of_flag(args, "--max-heal-ms"@) == Some(decimal(n as nat)) ==> c.max_heal_ms == n,
        value_of_flag(args, "--max-heal-ms"@) is None ==> c.max_heal_ms == 6000,
        value_of_flag(args, "--detect-ms"@) == Some(decimal(n as nat)) ==> c.detect_ms == n,
        value_of_flag(args, "--detect-ms"@) is None ==> c.detect_ms == 1000,
        value_of_flag(args, "--acks"@) is None ==> c.acks == AckLevel::All,
        c.replication == 3,
        c.readers_per_partition == 2,
{
    law_number_flag(args, "--seed"@, 1, n);
    law_number_flag(args, "--duration-secs"@, 120, n);
    law_number_flag(args, "--pace-ms"@, 25, n);
    law_number_flag(args, "--min-fault-gap-ms"@, 800, n);
    law_number_flag(args, "--max-fault-gap-ms"@, 3000, n);
    law_number_flag(args, "--min-heal-ms"@, 3000, n);
    law_number_flag(args, "--max-heal-ms"@, 6000, n);
    law_number_flag(args, "--detect-ms"@, 1000, n);
    reveal_strlit("all");
    reveal_strlit("1");
    reveal_strlit("leader");
    reveal_strlit("acks=1");
    assert("all"@[0] == 'a' && "all"@[1] == 'l');
    assert("acks=1"@[1] == 'c');
    assert("1"@[0] == '1');
    assert("leader"@[0] == 'l');
}

/// Arguments make up a run where they name a target, the faults and the
/// acknowledgement level can be read, and every number can.
pub proof fn law_config_accepted(args: Seq<String>)
    ensures
        config_error(args) is None <==> {
            &&& value_of_flag(args, "--target"@) is Some
            &&& faults_flag(args) is Ok
            &&& level_of(text_flag(args, "--acks"@, "all"@)) is Ok
            &&& number_flag(args, "--seed"@, 1) is Ok
            &&& number_flag(args, "--partitions"@, 2) is Ok
            &&& number_flag(args, "--duration-secs"@, 120) is Ok
            &&& number_flag(args, "--batch-records"@, 5) is Ok
            &&& number_flag(args, "--pace-ms"@, 25) is Ok
            &&& number_flag(args, "--value-bytes"@, 100) is Ok
            &&& number_flag(args, "--min-fault-gap-ms"@, 800) is Ok
            &&& number_flag(args, "--max-fault-gap-ms"@, 3000) is Ok
            &&& number_flag(args, "--min-heal-ms"@, 3000) is Ok
            &&& number_flag(args, "--max-heal-ms"@, 6000) is Ok
            &&& number_flag(args, "--detect-ms"@, 1000) is Ok
        },
{
    reveal_with_fuel(first_bad, 9);
    let late = late_flags();
    assert(late.drop_last() =~= late.take(7));
    assert(late.take(7).drop_last() =~= late.take(6));
    assert(late.take(6).drop_last() =~= late.take(5));
    assert(late.take(5).drop_last() =~= late.take(4));
    assert(late.take(4).drop_last() =~= late.take(3));
    assert(late.take(3).drop_last() =~= late.take(2));
    assert(late.take(2).drop_last() =~= late.take(1));
    let mid = seq![("--partitions"@, 2u64), ("--duration-secs"@, 120u64)];
    assert(mid.drop_last() =~= mid.take(1));
}

/// The length before a response is taken as it stands, up to sixteen mebibytes;
/// a longer one is refused.
pub proof fn law_response_length(n: nat)
    requires
        n < 0x1_0000_0000,
    ensures
        n <= 16_777_216 ==> response_length(be(n, 4)) == Ok::<nat, Seq<char>>(n),
        n > 16_777_216 ==> response_length(be(n, 4)) is Err,
{
    lemma_pow256_values();
    law_be_roundtrip(n, 4);
}

/// A row of the probe's report ends in its verdict.
pub proof fn law_verdict_rendered(r: ProbeRow)
    ensures
        "PASS"@.is_suffix_of(cells_text(r)) <==> r.pass,
        "FAIL"@.is_suffix_of(cells_text(r)) <==> !r.pass,
{
    reveal_strlit("PASS");
    reveal_strlit("FAIL");
    let t = cells_text(r);
    let verdict = if r.pass {
        "PASS"@
    } else {
        "FAIL"@
    };
    assert(t.subrange(t.len() - 4, t.len() as int) =~= verdict);
    assert("PASS"@[1] == 'A' && "PASS"@[2] == 'S' && "FAIL"@[2] == 'I');
    assert(t[t.len() - 2] == verdict[2]);
}

} // verus!
