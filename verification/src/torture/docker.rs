//! Docker fault backend: the same three levers for every containerized broker.
//!
//! The `docker` CLI rather than the Engine API — the harness runs on the host
//! next to the daemon, and the CLI is the one interface every target's compose
//! file already depends on. Each broker container sits on a shared `peers`
//! network plus its own private edge network that publishes its client port to
//! the host, so `isolate` (leave the peers network) severs it from the cluster
//! while the host-side workload still reaches it.

use super::cluster::Fault;
use crate::order::texts;
use crate::text::{char_rows, chars_of, same_chars, same_text, split_words, words};
use vstd::prelude::*;
use vstd::string::*;

verus! {

#[derive(Clone, Debug)]
pub struct Docker {
    pub containers: Vec<String>,
    pub peers_network: String,
}

/// The command line that applies a fault.
pub open spec fn apply_line(d: Docker, i: int, f: Fault) -> Seq<Seq<char>> {
    let c = d.containers@[i]@;
    match f {
        Fault::Kill => seq!["kill"@, "-s"@, "KILL"@, c],
        Fault::Pause => seq!["pause"@, c],
        Fault::Isolate => seq!["network"@, "disconnect"@, d.peers_network@, c],
    }
}

/// The command line that heals a fault.
pub open spec fn heal_line(d: Docker, i: int, f: Fault) -> Seq<Seq<char>> {
    let c = d.containers@[i]@;
    match f {
        Fault::Kill => seq!["start"@, c],
        Fault::Pause => seq!["unpause"@, c],
        Fault::Isolate => seq!["network"@, "connect"@, d.peers_network@, c],
    }
}

fn args2(a: &str, b: &str) -> (r: Vec<String>)
    ensures
        texts(r@) == seq![a@, b@],
{
    let mut r: Vec<String> = Vec::new();
    r.push(a.to_owned());
    r.push(b.to_owned());
    assert(texts(r@) =~= seq![a@, b@]);
    r
}

fn args4(a: &str, b: &str, c: &str, d: &str) -> (r: Vec<String>)
    ensures
        texts(r@) == seq![a@, b@, c@, d@],
{
    let mut r: Vec<String> = Vec::new();
    r.push(a.to_owned());
    r.push(b.to_owned());
    r.push(c.to_owned());
    r.push(d.to_owned());
    assert(texts(r@) =~= seq![a@, b@, c@, d@]);
    r
}

impl Docker {
    pub fn new(containers: Vec<String>, peers_network: String) -> (r: Docker)
        ensures
            r.containers == containers,
            r.peers_network == peers_network,
    {
        Docker { containers, peers_network }
    }

    /// The arguments that apply a fault to broker `i`.
    pub fn apply(&self, i: usize, f: Fault) -> (r: Vec<String>)
        requires
            i < self.containers@.len(),
        ensures
            texts(r@) == apply_line(*self, i as int, f),
    {
        let c: &str = self.containers[i].as_str();
        match f {
            Fault::Kill => args4("kill", "-s", "KILL", c),
            Fault::Pause => args2("pause", c),
            Fault::Isolate => args4("network", "disconnect", self.peers_network.as_str(), c),
        }
    }

    /// The arguments that heal a fault of broker `i`.
    pub fn heal(&self, i: usize, f: Fault) -> (r: Vec<String>)
        requires
            i < self.containers@.len(),
        ensures
            texts(r@) == heal_line(*self, i as int, f),
    {
        let c: &str = self.containers[i].as_str();
        match f {
            Fault::Kill => args2("start", c),
            Fault::Pause => args2("unpause", c),
            Fault::Isolate => args4("network", "connect", self.peers_network.as_str(), c),
        }
    }

    /// The arguments that ask for a property of broker `i`.
    pub fn inspect(&self, i: usize, format: &str) -> (r: Vec<String>)
        requires
            i < self.containers@.len(),
        ensures
            texts(r@) == seq!["inspect"@, "-f"@, format@, self.containers@[i as int]@],
    {
        args4("inspect", "-f", format, self.containers[i].as_str())
    }

    /// The arguments that ask whether broker `i` is running.
    pub fn is_running(&self, i: usize) -> (r: Vec<String>)
        requires
            i < self.containers@.len(),
        ensures
            texts(r@) == seq![
                "inspect"@,
                "-f"@,
                "{{.State.Running}}"@,
                self.containers@[i as int]@,
            ],
    {
        self.inspect(i, "{{.State.Running}}")
    }

    /// The arguments that ask whether broker `i` is paused.
    pub fn is_paused(&self, i: usize) -> (r: Vec<String>)
        requires
            i < self.containers@.len(),
        ensures
            texts(r@) == seq![
                "inspect"@,
                "-f"@,
                "{{.State.Paused}}"@,
                self.containers@[i as int]@,
            ],
    {
        self.inspect(i, "{{.State.Paused}}")
    }

    /// Whether the answer to either question is yes.
    pub fn is_true(output: &str) -> (r: bool)
        ensures
            r == (output@ == "true"@),
    {
        same_text(output, "true")
    }

    /// The arguments that ask for the networks of broker `i`.
    pub fn networks(&self, i: usize) -> (r: Vec<String>)
        requires
            i < self.containers@.len(),
        ensures
            texts(r@) == seq![
                "inspect"@,
                "-f"@,
                "{{range $k, $v := .NetworkSettings.Networks}}{{$k}} {{end}}"@,
                self.containers@[i as int]@,
            ],
    {
        self.inspect(i, "{{range $k, $v := .NetworkSettings.Networks}}{{$k}} {{end}}")
    }

    /// Whether the peers network is among those in the answer.
    pub fn on_peers_network(&self, output: &str) -> (r: bool)
        ensures
            r == words(output@).contains(self.peers_network@),
    {
        let chars: Vec<char> = chars_of(output);
        let names: Vec<Vec<char>> = split_words(chars.as_slice());
        let peers: Vec<char> = chars_of(self.peers_network.as_str());
        let ghost ws = words(output@);
        let mut i: usize = 0;
        while i < names.len()
            invariant
                i <= names@.len(),
                char_rows(names@) == ws,
                ws == words(output@),
                peers@ == self.peers_network@,
                forall|j: int| 0 <= j < i ==> #[trigger] ws[j] != self.peers_network@,
            decreases names@.len() - i,
        {
            assert(ws[i as int] == names@[i as int]@);
            if same_chars(names[i].as_slice(), peers.as_slice()) {
                return true;
            }
            i += 1;
        }
        false
    }
}

/// What a failed command is reported as, given what it printed.
pub open spec fn command_failure(args: Seq<Seq<char>>, stderr: Seq<char>) -> Seq<char> {
    "docker "@ + joined_args(args) + " failed: "@ + stderr
}

/// Arguments with spaces between them.
pub open spec fn joined_args(args: Seq<Seq<char>>) -> Seq<char>
    decreases args.len(),
{
    if args.len() == 0 {
        Seq::empty()
    } else if args.len() == 1 {
        args[0]
    } else {
        joined_args(args.drop_last()) + " "@ + args.last()
    }
}

/// Reports a failed command.
pub fn failure(args: &Vec<String>, stderr: &str) -> (r: String)
    ensures
        r@ == command_failure(texts(args@), stderr@),
{
    let ghost all = texts(args@);
    let mut r: String = "docker ".to_owned();
    let mut i: usize = 0;
    assert(r@ =~= "docker "@ + joined_args(all.take(0)));
    while i < args.len()
        invariant
            i <= args@.len(),
            all == texts(args@),
            r@ == "docker "@ + joined_args(all.take(i as int)),
        decreases args@.len() - i,
    {
        proof {
            assert(all.take(i + 1).drop_last() =~= all.take(i as int));
            assert(all.take(i + 1).last() == args@[i as int]@);
        }
        if i > 0 {
            r.append(" ");
        }
        r.append(args[i].as_str());
        assert(r@ =~= "docker "@ + joined_args(all.take(i + 1)));
        i += 1;
    }
    assert(all.take(i as int) =~= all);
    r.append(" failed: ");
    r.append(stderr);
    assert(r@ =~= command_failure(all, stderr@));
    r
}

} // verus!
