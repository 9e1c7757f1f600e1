//! Process-boundary harness: what drives a real cluster of *child processes*
//! (one controller + N brokers) that can be killed with SIGKILL and restarted
//! on their data directories.
//!
//! The process-boundary failover tests, the failover-time bench and the
//! torture harness all drive clusters the same way — spawn the real binaries,
//! parse their "listening on" line, `kill -9` by id, restart on the same
//! data dir, and watch the controller's metadata to know when the cluster has
//! reacted.

pub mod bench;
pub mod proxy;
pub mod rng;

use crate::ids::copy_ids;
use crate::proto::lookup::{find_partition, find_topic, partition_of};
use crate::proto::ClusterMeta;
use crate::search::{find_from, find_text, pieces, split_on, trim, trimmed};
use crate::text::{chars_of, decimal, decimal_text, quoted, quoted_text, string_of};
use vstd::prelude::*;
use vstd::string::*;

verus! {

/// Everything needed to spawn a cluster. Binary paths come from the caller:
/// integration tests know their own build's binaries, bench bins locate their
/// siblings in the same target directory.
#[derive(Clone)]
pub struct ClusterSpec {
    pub controller_bin: String,
    pub broker_bin: String,
    /// Data root; the caller owns its lifetime (e.g. a temporary directory).
    pub root: String,
    pub brokers: usize,
    pub fsync: String,
    pub min_isr: u32,
    pub replica_lag_ms: u64,
    pub session_timeout_ms: u64,
}

impl ClusterSpec {
    pub fn new(controller_bin: String, broker_bin: String, root: String) -> (r: Self)
        ensures
            r.controller_bin@ == controller_bin@,
            r.broker_bin@ == broker_bin@,
            r.root@ == root@,
            r.brokers == 3,
            r.fsync@ == "batch:1048576:5"@,
            r.min_isr == 2,
            r.replica_lag_ms == 1500,
            r.session_timeout_ms == 700,
    {
        ClusterSpec {
            controller_bin,
            broker_bin,
            root,
            brokers: 3,
            fsync: "batch:1048576:5".to_owned(),
            min_isr: 2,
            replica_lag_ms: 1500,
            session_timeout_ms: 700,
        }
    }
}

/// The address that a process announces on its first line of output.
pub open spec fn announced(line: Seq<char>) -> Result<Seq<char>, Seq<char>> {
    let addr = pieces(trimmed(line), ' ').last();
    if find_from(line, "listening on"@, 0) is None || addr.len() == 0 {
        Err(
            "process did not announce a listen address (got "@ + quoted_text(line) + ")"@,
        )
    } else {
        Ok(addr)
    }
}

/// The address in a `... listening on <addr>` line.
pub fn announced_addr(line: &str) -> (r: Result<String, String>)
    ensures
        match announced(line@) {
            Ok(addr) => r is Ok && r->Ok_0@ == addr,
            Err(text) => r is Err && r->Err_0@ == text,
        },
{
    let chars: Vec<char> = chars_of(line);
    let body: Vec<char> = trim(chars.as_slice());
    let parts: Vec<Vec<char>> = split_on(body.as_slice(), ' ');
    proof {
        let rows = crate::text::char_rows(parts@);
        lemma_pieces_some(trimmed(line@), ' ');
        assert(rows.last() == parts@.last()@);
    }
    let addr: &Vec<char> = &parts[parts.len() - 1];
    let mark: Vec<char> = chars_of("listening on");
    if find_text(chars.as_slice(), mark.as_slice()).is_none() || addr.len() == 0 {
        let mut text: String = "process did not announce a listen address (got ".to_owned();
        text.append(&quoted(line));
        text.append(")");
        return Err(text);
    }
    Ok(string_of(addr.as_slice()))
}

proof fn lemma_pieces_some(s: Seq<char>, c: char)
    ensures
        pieces(s, c).len() > 0,
    decreases s.len(),
{
    crate::text::lemma_first_of_bound(s, c);
}

/// A `--name value` argument list.
pub open spec fn arg_texts(v: Seq<String>) -> Seq<Seq<char>> {
    crate::order::texts(v)
}

fn arg(s: &str) -> (r: String)
    ensures
        r@ == s@,
{
    s.to_owned()
}

impl ClusterSpec {
    /// The controller's command line, given its state file.
    pub fn controller_args(&self, state_file: &str) -> (r: Vec<String>)
        ensures
            arg_texts(r@) == seq![
                "--listen"@,
                "127.0.0.1:0"@,
                "--state-file"@,
                state_file@,
                "--session-timeout-ms"@,
                decimal(self.session_timeout_ms as nat),
            ],
    {
        let mut r: Vec<String> = Vec::new();
        r.push(arg("--listen"));
        r.push(arg("127.0.0.1:0"));
        r.push(arg("--state-file"));
        r.push(arg(state_file));
        r.push(arg("--session-timeout-ms"));
        r.push(decimal_text(self.session_timeout_ms));
        assert(arg_texts(r@) =~= seq![
            "--listen"@,
            "127.0.0.1:0"@,
            "--state-file"@,
            state_file@,
            "--session-timeout-ms"@,
            decimal(self.session_timeout_ms as nat),
        ]);
        r
    }

    /// The command line of broker `id`, given its data directory.
    pub fn broker_args(&self, id: u32, data_dir: &str, controller_addr: &str) -> (r: Vec<String>)
        ensures
            arg_texts(r@) == seq![
                "--listen"@,
                "127.0.0.1:0"@,
                "--data-dir"@,
                data_dir@,
                "--fsync"@,
                self.fsync@,
                "--broker-id"@,
                decimal(id as nat),
                "--controller-addr"@,
                controller_addr@,
                "--min-isr"@,
                decimal(self.min_isr as nat),
                "--replica-lag-ms"@,
                decimal(self.replica_lag_ms as nat),
            ],
    {
        let mut r: Vec<String> = Vec::new();
        r.push(arg("--listen"));
        r.push(arg("127.0.0.1:0"));
        r.push(arg("--data-dir"));
        r.push(arg(data_dir));
        r.push(arg("--fsync"));
        r.push(arg(self.fsync.as_str()));
        r.push(arg("--broker-id"));
        r.push(decimal_text(id as u64));
        r.push(arg("--controller-addr"));
        r.push(arg(controller_addr));
        r.push(arg("--min-isr"));
        r.push(decimal_text(self.min_isr as u64));
        r.push(arg("--replica-lag-ms"));
        r.push(decimal_text(self.replica_lag_ms));
        assert(arg_texts(r@) =~= seq![
            "--listen"@,
            "127.0.0.1:0"@,
            "--data-dir"@,
            data_dir@,
            "--fsync"@,
            self.fsync@,
            "--broker-id"@,
            decimal(id as nat),
            "--controller-addr"@,
            controller_addr@,
            "--min-isr"@,
            decimal(self.min_isr as nat),
            "--replica-lag-ms"@,
            decimal(self.replica_lag_ms as nat),
        ]);
        r
    }
}

/// The leader of a partition, or -1 where the metadata knows none.
pub fn leader_of(meta: &ClusterMeta, topic: &str, partition: u32) -> (r: i32)
    ensures
        r == match partition_of(*meta, topic@, partition) {
            Some(p) => p.leader,
            None => -1i32,
        },
{
    match find_topic(&meta.topics, topic) {
        Some(t) => match find_partition(&meta.topics[t].partitions, partition) {
            Some(p) => meta.topics[t].partitions[p].leader,
            None => -1,
        },
        None => -1,
    }
}

/// The in-sync replicas of a partition; none where the metadata knows none.
pub fn isr_of(meta: &ClusterMeta, topic: &str, partition: u32) -> (r: Vec<u32>)
    ensures
        r@ == match partition_of(*meta, topic@, partition) {
            Some(p) => p.isr@,
            None => Seq::<u32>::empty(),
        },
{
    match find_topic(&meta.topics, topic) {
        Some(t) => match find_partition(&meta.topics[t].partitions, partition) {
            Some(p) => copy_ids(&meta.topics[t].partitions[p].isr),
            None => Vec::new(),
        },
        None => Vec::new(),
    }
}

/// Whether the metadata lists broker `id` under `addr`: what a restart waits
/// for.
pub open spec fn lists_broker(brokers: Seq<(u32, String)>, id: u32, addr: Seq<char>) -> bool {
    exists|i: int| 0 <= i < brokers.len() && (#[trigger] brokers[i]).0 == id && brokers[i].1@ == addr
}

/// Whether the metadata lists broker `id` under `addr`.
pub fn is_registered(meta: &ClusterMeta, id: u32, addr: &str) -> (r: bool)
    ensures
        r == lists_broker(meta.brokers@, id, addr@),
{
    let mut i: usize = 0;
    while i < meta.brokers.len()
        invariant
            i <= meta.brokers@.len(),
            forall|j: int|
                0 <= j < i ==> !((#[trigger] meta.brokers@[j]).0 == id && meta.brokers@[j].1@
                    == addr@),
        decreases meta.brokers@.len() - i,
    {
        if meta.brokers[i].0 == id && crate::text::same_text(meta.brokers[i].1.as_str(), addr) {
            assert(meta.brokers@[i as int].0 == id);
            return true;
        }
        i += 1;
    }
    false
}

} // verus!
