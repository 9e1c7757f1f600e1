//! Targets matching the deployed clusters: container names, host-published
//! client ports, peers network, and admin ports; and the settings of a run.

use super::cluster::{fault_list, Fault};
use super::schedule::RunConfig;
use super::workload::{level_of, AckLevel};
use crate::order::texts;
use crate::text::{
    chars_of, decimal, parse_number, parse_uint, push_decimal, quoted, quoted_text, same_text,
};
use vstd::prelude::*;
use vstd::string::*;

verus! {

#[derive(Debug, Clone)]
pub struct Preset {
    pub name: &'static str,
    pub containers: Vec<String>,
    pub peers_network: String,
    pub client_addrs: Vec<String>,
    pub admin_addrs: Vec<String>,
    pub node_ids: Vec<i32>,
}

/// Three names that end in consecutive numbers.
pub open spec fn three(lead: Seq<char>, base: nat) -> Seq<Seq<char>> {
    seq![lead + decimal(base), lead + decimal(base + 1), lead + decimal(base + 2)]
}

fn numbered(lead: &str, n: u64) -> (r: String)
    ensures
        r@ == lead@ + decimal(n as nat),
{
    let mut r: String = lead.to_owned();
    push_decimal(&mut r, n);
    r
}

fn three_of(lead: &str, base: u64) -> (r: Vec<String>)
    requires
        base <= 0xffff,
    ensures
        texts(r@) == three(lead@, base as nat),
{
    let mut r: Vec<String> = Vec::new();
    r.push(numbered(lead, base));
    r.push(numbered(lead, base + 1));
    r.push(numbered(lead, base + 2));
    assert(texts(r@) =~= three(lead@, base as nat));
    r
}

fn three_ids() -> (r: Vec<i32>)
    ensures
        r@ == seq![0i32, 1i32, 2i32],
{
    let mut r: Vec<i32> = Vec::new();
    r.push(0);
    r.push(1);
    r.push(2);
    assert(r@ =~= seq![0i32, 1i32, 2i32]);
    r
}

/// Whether a preset is that of a target.
pub open spec fn is_preset(p: Preset, name: Seq<char>) -> bool {
    &&& p.name@ == name
    &&& p.node_ids@ == seq![0i32, 1i32, 2i32]
    &&& if name == "redpanda"@ {
        &&& texts(p.containers@) == three("rp-"@, 0)
        &&& p.peers_network@ == "replog-rp_peers"@
        &&& texts(p.client_addrs@) == three("localhost:"@, 29090)
        &&& texts(p.admin_addrs@) == three("localhost:"@, 29640)
    } else {
        &&& texts(p.containers@) == three("rl-"@, 0)
        &&& p.peers_network@ == "replog-rl_peers"@
        &&& texts(p.client_addrs@) == three("localhost:"@, 29000)
        &&& texts(p.admin_addrs@) == seq!["localhost:29099"@]
    }
}

/// The preset of a target.
pub fn preset(name: &str) -> (r: Result<Preset, String>)
    ensures
        (name@ == "redpanda"@ || name@ == "replog"@) ==> r is Ok && is_preset(r->Ok_0, name@),
        !(name@ == "redpanda"@ || name@ == "replog"@) ==> r is Err && r->Err_0@
            == "unknown target "@ + quoted_text(name@) + " (redpanda|replog)"@,
{
    if same_text(name, "redpanda") {
        return Ok(
            Preset {
                name: "redpanda",
                containers: three_of("rp-", 0),
                peers_network: "replog-rp_peers".to_owned(),
                client_addrs: three_of("localhost:", 29090),
                admin_addrs: three_of("localhost:", 29640),
                node_ids: three_ids(),
            },
        );
    }
    if same_text(name, "replog") {
        let mut admin_addrs: Vec<String> = Vec::new();
        admin_addrs.push("localhost:29099".to_owned());
        assert(texts(admin_addrs@) =~= seq!["localhost:29099"@]);
        proof {
            reveal_strlit("replog");
            reveal_strlit("redpanda");
            assert("replog"@.len() != "redpanda"@.len());
        }
        return Ok(
            Preset {
                name: "replog",
                containers: three_of("rl-", 0),
                peers_network: "replog-rl_peers".to_owned(),
                client_addrs: three_of("localhost:", 29000),
                admin_addrs,
                node_ids: three_ids(),
            },
        );
    }
    let mut e: String = "unknown target ".to_owned();
    e.append(quoted(name).as_str());
    e.append(" (redpanda|replog)");
    Err(e)
}

/// Where a text first stands among arguments, from `i` on.
pub open spec fn flag_from(args: Seq<String>, flag: Seq<char>, i: int) -> Option<int>
    decreases args.len() - i,
{
    if i < 0 || i >= args.len() {
        None
    } else if args[i]@ == flag {
        Some(i)
    } else {
        flag_from(args, flag, i + 1)
    }
}

/// What stands behind the first occurrence of a flag.
pub open spec fn value_of_flag(args: Seq<String>, flag: Seq<char>) -> Option<Seq<char>> {
    match flag_from(args, flag, 0) {
        Some(i) => if i + 1 < args.len() {
            Some(args[i + 1]@)
        } else {
            None
        },
        None => None,
    }
}

/// What stands behind the first occurrence of a flag.
pub fn arg_value(args: &Vec<String>, flag: &str) -> (r: Option<String>)
    ensures
        match value_of_flag(args@, flag@) {
            Some(v) => r is Some && r->0@ == v,
            None => r is None,
        },
{
    let mut i: usize = 0;
    while i < args.len()
        invariant
            i <= args@.len(),
            flag_from(args@, flag@, i as int) == flag_from(args@, flag@, 0),
        decreases args@.len() - i,
    {
        if same_text(args[i].as_str(), flag) {
            if i + 1 < args.len() {
                return Some(args[i + 1].clone());
            }
            return None;
        }
        i += 1;
    }
    None
}

/// What a flag says, or what holds without it.
pub open spec fn text_flag(args: Seq<String>, flag: Seq<char>, default: Seq<char>) -> Seq<char> {
    match value_of_flag(args, flag) {
        Some(v) => v,
        None => default,
    }
}

fn text_arg(args: &Vec<String>, flag: &str, default: &str) -> (r: String)
    ensures
        r@ == text_flag(args@, flag@, default@),
{
    match arg_value(args, flag) {
        Some(v) => v,
        None => default.to_owned(),
    }
}

/// The number that a flag says, or the one that holds without it.
pub open spec fn number_flag(args: Seq<String>, flag: Seq<char>, default: u64) -> Result<
    u64,
    Seq<char>,
> {
    match value_of_flag(args, flag) {
        None => Ok(default),
        Some(v) => match parse_number(v, u64::MAX as nat) {
            Ok(n) => Ok(n as u64),
            Err(_) => Err(flag + " needs an integer"@),
        },
    }
}

/// The number that a flag says, or the one that holds without it.
pub fn num(args: &Vec<String>, flag: &str, default: u64) -> (r: Result<u64, String>)
    ensures
        match number_flag(args@, flag@, default) {
            Ok(n) => r == Ok::<u64, String>(n),
            Err(e) => r is Err && r->Err_0@ == e,
        },
{
    match arg_value(args, flag) {
        None => Ok(default),
        Some(v) => {
            let chars: Vec<char> = chars_of(v.as_str());
            match parse_uint(chars.as_slice(), u64::MAX) {
                Ok(n) => Ok(n),
                Err(_) => {
                    let mut e: String = flag.to_owned();
                    e.append(" needs an integer");
                    Err(e)
                },
            }
        },
    }
}

/// The first of two faults.
pub open spec fn first_error<A, B>(a: Result<A, Seq<char>>, b: Result<B, Seq<char>>) -> Option<
    Seq<char>,
> {
    match a {
        Err(e) => Some(e),
        Ok(_) => match b {
            Err(e) => Some(e),
            Ok(_) => None,
        },
    }
}

/// The first flag of a list that is no number, and what is said of it.
pub open spec fn first_bad(args: Seq<String>, flags: Seq<(Seq<char>, u64)>) -> Option<Seq<char>>
    decreases flags.len(),
{
    if flags.len() == 0 {
        None
    } else {
        match first_bad(args, flags.drop_last()) {
            Some(e) => Some(e),
            None => match number_flag(args, flags.last().0, flags.last().1) {
                Err(e) => Some(e),
                Ok(_) => None,
            },
        }
    }
}

/// The faults that a run injects.
pub open spec fn faults_flag(args: Seq<String>) -> Result<Seq<Fault>, Seq<char>> {
    let s = text_flag(args, "--faults"@, "kill,pause,isolate"@);
    if s == "none"@ {
        Ok(Seq::empty())
    } else {
        fault_list(s)
    }
}

/// The number of a flag that says one.
pub open spec fn number(args: Seq<String>, flag: Seq<char>, default: u64) -> u64 {
    number_flag(args, flag, default)->Ok_0
}

/// Why arguments do not make up a run, in the order in which they are read.
pub open spec fn config_error(args: Seq<String>) -> Option<Seq<char>> {
    let early = first_error(faults_flag(args), number_flag(args, "--seed"@, 1));
    let mid = first_bad(args, seq![("--partitions"@, 2u64), ("--duration-secs"@, 120u64)]);
    let acks = level_of(text_flag(args, "--acks"@, "all"@));
    if early is Some {
        early
    } else if value_of_flag(args, "--target"@) is None {
        Some("--target is required"@)
    } else if mid is Some {
        mid
    } else if acks is Err {
        Some(acks->Err_0)
    } else {
        first_bad(args, late_flags())
    }
}

/// The flags that are read last, with what holds without them.
pub open spec fn late_flags() -> Seq<(Seq<char>, u64)> {
    seq![
        ("--batch-records"@, 5u64),
        ("--pace-ms"@, 25u64),
        ("--value-bytes"@, 100u64),
        ("--min-fault-gap-ms"@, 800u64),
        ("--max-fault-gap-ms"@, 3000u64),
        ("--min-heal-ms"@, 3000u64),
        ("--max-heal-ms"@, 6000u64),
        ("--detect-ms"@, 1000u64),
    ]
}

/// Whether a configuration is what arguments say.
pub open spec fn config_says(args: Seq<String>, c: RunConfig) -> bool {
    let seed = number(args, "--seed"@, 1);
    let target = value_of_flag(args, "--target"@)->0;
    &&& c.topic@ == text_flag(args, "--topic"@, "torture-"@ + decimal(seed as nat))
    &&& c.partitions == #[verifier::truncate] (number(args, "--partitions"@, 2) as u32)
    &&& c.replication == 3
    &&& c.seed == seed
    &&& c.duration_secs == number(args, "--duration-secs"@, 120)
    &&& faults_flag(args) == Ok::<Seq<Fault>, Seq<char>>(c.faults@)
    &&& level_of(text_flag(args, "--acks"@, "all"@)) == Ok::<AckLevel, Seq<char>>(c.acks)
    &&& c.batch_records == #[verifier::truncate] (number(args, "--batch-records"@, 5) as usize)
    &&& c.pace_ms == number(args, "--pace-ms"@, 25)
    &&& c.value_bytes == #[verifier::truncate] (number(args, "--value-bytes"@, 100) as usize)
    &&& c.min_gap_ms == number(args, "--min-fault-gap-ms"@, 800)
    &&& c.max_gap_ms == number(args, "--max-fault-gap-ms"@, 3000)
    &&& c.min_heal_ms == number(args, "--min-heal-ms"@, 3000)
    &&& c.max_heal_ms == number(args, "--max-heal-ms"@, 6000)
    &&& c.detect_ms == number(args, "--detect-ms"@, 1000)
    &&& c.readers_per_partition == 2
    &&& c.out_dir@ == text_flag(
        args,
        "--out-dir"@,
        "target/faults/"@ + target + "/seed-"@ + decimal(seed as nat),
    )
}

fn faults_arg(args: &Vec<String>) -> (r: Result<Vec<Fault>, String>)
    ensures
        match faults_flag(args@) {
            Ok(fs) => r is Ok && r->Ok_0@ == fs,
            Err(e) => r is Err && r->Err_0@ == e,
        },
{
    let s: String = text_arg(args, "--faults", "kill,pause,isolate");
    if same_text(s.as_str(), "none") {
        let none: Vec<Fault> = Vec::new();
        assert(none@ =~= Seq::empty());
        return Ok(none);
    }
    Fault::parse_list(s.as_str())
}

/// The configuration of a run, from its arguments.
pub fn run_config(args: &Vec<String>) -> (r: Result<RunConfig, String>)
    ensures
        match config_error(args@) {
            Some(e) => r is Err && r->Err_0@ == e,
            None => r is Ok && config_says(args@, r->Ok_0),
        },
{
    proof {
        reveal_with_fuel(first_bad, 9);
        let late = late_flags();
        assert(late.drop_last() =~= late.take(7));
        assert(late.take(7).drop_last() =~= late.take(6));
        assert(late.take(6).drop_last() =~= late.take(5));
        assert(late.take(5).drop_last() =~= late.take(4));
        assert(late.take(4).drop_last() =~= late.take(3));
        assert(late.take(3).drop_last() =~= late.take(2));
        assert(late.take(2).drop_last() =~= late.take(1));
        assert(late.take(1).drop_last() =~= late.take(0));
    }
    let faults: Vec<Fault> = faults_arg(args)?;
    let seed: u64 = num(args, "--seed", 1)?;
    let target: String = match arg_value(args, "--target") {
        Some(t) => t,
        None => {
            return Err("--target is required".to_owned());
        },
    };
    let mut topic: String = "torture-".to_owned();
    push_decimal(&mut topic, seed);
    let topic: String = text_arg(args, "--topic", topic.as_str());
    proof {
        let mid = seq![("--partitions"@, 2u64), ("--duration-secs"@, 120u64)];
        assert(mid.drop_last() =~= seq![("--partitions"@, 2u64)]);
        assert(mid.drop_last().drop_last() =~= Seq::empty());
    }
    let partitions: u64 = num(args, "--partitions", 2)?;
    let duration_secs: u64 = num(args, "--duration-secs", 120)?;
    let acks: AckLevel = AckLevel::parse(text_arg(args, "--acks", "all").as_str())?;
    let batch_records: u64 = num(args, "--batch-records", 5)?;
    let pace_ms: u64 = num(args, "--pace-ms", 25)?;
    let value_bytes: u64 = num(args, "--value-bytes", 100)?;
    let min_gap_ms: u64 = num(args, "--min-fault-gap-ms", 800)?;
    let max_gap_ms: u64 = num(args, "--max-fault-gap-ms", 3000)?;
    let min_heal_ms: u64 = num(args, "--min-heal-ms", 3000)?;
    let max_heal_ms: u64 = num(args, "--max-heal-ms", 6000)?;
    let detect_ms: u64 = num(args, "--detect-ms", 1000)?;
    let mut out_dir: String = "target/faults/".to_owned();
    out_dir.append(target.as_str());
    out_dir.append("/seed-");
    push_decimal(&mut out_dir, seed);
    let out_dir: String = text_arg(args, "--out-dir", out_dir.as_str());
    Ok(
        RunConfig {
            topic,
            partitions: #[verifier::truncate] (partitions as u32),
            replication: 3,
            seed,
            duration_secs,
            faults,
            acks,
            batch_records: #[verifier::truncate] (batch_records as usize),
            pace_ms,
            value_bytes: #[verifier::truncate] (value_bytes as usize),
            min_gap_ms,
            max_gap_ms,
            min_heal_ms,
            max_heal_ms,
            detect_ms,
            readers_per_partition: 2,
            out_dir,
        },
    )
}

} // verus!
