//! The data directory: one directory `<topic>-<partition>` per partition.

use super::offsets::OFFSETS_TOPIC;
use crate::order::{lemma_sorted_len, sort_numbers, sorted_numbers};
use crate::text::{
    chars_of, last_of, list_text, parse_number, parse_uint, push_list, rfind_char, same_text,
    string_of,
};
use vstd::prelude::*;
use vstd::slice::*;
use vstd::string::*;

verus! {

/// An entry of the data directory.
pub struct DirEntry {
    pub name: String,
    pub is_dir: bool,
}

/// A partition that the data directory holds.
pub type Found = (Seq<char>, u64);

/// What the entries name, or what is wrong with the first that is wrong.
/// Hidden entries are passed over.
pub open spec fn named(es: Seq<DirEntry>) -> Result<Seq<Found>, Seq<char>>
    decreases es.len(),
{
    if es.len() == 0 {
        Ok(Seq::empty())
    } else {
        match named(es.drop_last()) {
            Err(text) => Err(text),
            Ok(fs) => {
                let name = es.last().name@;
                let dash = last_of(name, '-');
                if name.len() > 0 && name[0] == '.' {
                    Ok(fs)
                } else if !es.last().is_dir {
                    Err("unexpected file "@ + name + " in data dir"@)
                } else if dash < 0 {
                    Err("directory "@ + name + " is not <topic>-<partition>"@)
                } else {
                    match parse_number(name.skip(dash + 1), u64::MAX as nat) {
                        Err(_) => Err(
                            "directory "@ + name + " has a non-numeric partition suffix"@,
                        ),
                        Ok(p) => Ok(fs.push((name.take(dash), p as u64))),
                    }
                }
            },
        }
    }
}

/// The partition numbers of a topic.
pub open spec fn numbers_of(fs: Seq<Found>, topic: Seq<char>) -> Seq<u64>
    decreases fs.len(),
{
    if fs.len() == 0 {
        Seq::empty()
    } else if fs.last().0 == topic {
        numbers_of(fs.drop_last(), topic).push(fs.last().1)
    } else {
        numbers_of(fs.drop_last(), topic)
    }
}

/// Whether sorted partition numbers are 0, 1, 2 and so on.
pub open spec fn contiguous(ns: Seq<u64>) -> bool {
    forall|i: int| 0 <= i < ns.len() ==> #[trigger] ns[i] == i
}

pub open spec fn not_contiguous(topic: Seq<char>, ns: Seq<u64>) -> Seq<char> {
    "topic "@ + topic + " partitions are not contiguous from 0: ["@ + list_text(ns) + "]"@
}

/// Whether one of the first `n` finds is of the topic.
pub open spec fn seen_before(fs: Seq<Found>, n: int, topic: Seq<char>) -> bool {
    exists|j: int| 0 <= j < n && (#[trigger] fs[j]).0 == topic
}

/// The topics among the first `n` finds, in the order in which they first
/// appear, with their numbers of partitions; or the first that has a hole.
pub open spec fn topics_found(fs: Seq<Found>, n: int) -> Result<Seq<(Seq<char>, u32)>, Seq<char>>
    decreases n,
{
    if n <= 0 {
        Ok(Seq::empty())
    } else {
        match topics_found(fs, n - 1) {
            Err(text) => Err(text),
            Ok(ts) => {
                let topic = fs[n - 1].0;
                let ns = sorted_numbers(numbers_of(fs, topic));
                if seen_before(fs, n - 1, topic) {
                    Ok(ts)
                } else if !contiguous(ns) {
                    Err(not_contiguous(topic, ns))
                } else {
                    Ok(ts.push((topic, ns.len() as u32)))
                }
            },
        }
    }
}

/// The topics that a data directory holds.
pub open spec fn topics_in(es: Seq<DirEntry>) -> Result<Seq<(Seq<char>, u32)>, Seq<char>> {
    match named(es) {
        Ok(fs) => topics_found(fs, fs.len() as int),
        Err(text) => Err(text),
    }
}

pub open spec fn topic_views(v: Seq<(String, u32)>) -> Seq<(Seq<char>, u32)> {
    v.map_values(|t: (String, u32)| (t.0@, t.1))
}

spec fn found_views(v: Seq<(String, u64)>) -> Seq<Found> {
    v.map_values(|t: (String, u64)| (t.0@, t.1))
}

proof fn lemma_named_error(es: Seq<DirEntry>, n: int)
    requires
        0 <= n <= es.len(),
        named(es.take(n)) is Err,
    ensures
        named(es) == named(es.take(n)),
    decreases es.len(),
{
    if n < es.len() {
        assert(es.drop_last().take(n) =~= es.take(n));
        lemma_named_error(es.drop_last(), n);
    } else {
        assert(es.take(n) =~= es);
    }
}

proof fn lemma_found_error(fs: Seq<Found>, n: int, m: int)
    requires
        0 <= n <= m,
        topics_found(fs, n) is Err,
    ensures
        topics_found(fs, m) == topics_found(fs, n),
    decreases m,
{
    if n < m {
        lemma_found_error(fs, n, m - 1);
    }
}

proof fn lemma_named_len(es: Seq<DirEntry>)
    ensures
        named(es) is Ok ==> named(es)->Ok_0.len() <= es.len(),
    decreases es.len(),
{
    if es.len() > 0 {
        lemma_named_len(es.drop_last());
    }
}

proof fn lemma_numbers_len(fs: Seq<Found>, topic: Seq<char>)
    ensures
        numbers_of(fs, topic).len() <= fs.len(),
    decreases fs.len(),
{
    if fs.len() > 0 {
        lemma_numbers_len(fs.drop_last(), topic);
    }
}

fn message(lead: &str, name: &str, tail: &str) -> (text: String)
    ensures
        text@ == lead@ + name@ + tail@,
{
    let mut text: String = lead.to_owned();
    text.append(name);
    text.append(tail);
    text
}

fn name_entries(entries: &Vec<DirEntry>) -> (r: Result<Vec<(String, u64)>, String>)
    ensures
        match named(entries@) {
            Ok(fs) => r is Ok && found_views(r->Ok_0@) == fs,
            Err(text) => r is Err && r->Err_0@ == text,
        },
{
    let ghost es = entries@;
    let mut found: Vec<(String, u64)> = Vec::new();
    let mut i: usize = 0;
    assert(es.take(0) =~= Seq::empty());
    assert(found_views(found@) =~= Seq::empty());
    while i < entries.len()
        invariant
            i <= entries@.len(),
            es == entries@,
            named(es.take(i as int)) == Ok::<Seq<Found>, Seq<char>>(found_views(found@)),
        decreases entries@.len() - i,
    {
        let e: &DirEntry = &entries[i];
        let name: Vec<char> = chars_of(e.name.as_str());
        let chars: &[char] = name.as_slice();
        proof {
            assert(es.take(i + 1).drop_last() =~= es.take(i as int));
            assert(es.take(i + 1).last() == e);
        }
        if !(chars.len() > 0 && chars[0] == '.') {
            if !e.is_dir {
                proof {
                    lemma_named_error(es, i + 1);
                }
                return Err(message("unexpected file ", e.name.as_str(), " in data dir"));
            }
            let dash: usize = match rfind_char(chars, '-') {
                Some(k) => k,
                None => {
                    proof {
                        lemma_named_error(es, i + 1);
                    }
                    return Err(
                        message("directory ", e.name.as_str(), " is not <topic>-<partition>"),
                    );
                },
            };
            let digits: &[char] = slice_subrange(chars, dash + 1, chars.len());
            let topic: &[char] = slice_subrange(chars, 0, dash);
            assert(digits@ =~= chars@.skip(dash + 1));
            assert(topic@ =~= chars@.take(dash as int));
            match parse_uint(digits, u64::MAX) {
                Ok(p) => {
                    let ghost before = found_views(found@);
                    found.push((string_of(topic), p));
                    assert(found_views(found@) =~= before.push((topic@, p)));
                },
                Err(_) => {
                    proof {
                        lemma_named_error(es, i + 1);
                    }
                    return Err(
                        message(
                            "directory ",
                            e.name.as_str(),
                            " has a non-numeric partition suffix",
                        ),
                    );
                },
            }
        }
        i += 1;
    }
    assert(es.take(i as int) =~= es);
    Ok(found)
}

fn numbers(found: &Vec<(String, u64)>, topic: &str) -> (r: Vec<u64>)
    ensures
        r@ == numbers_of(found_views(found@), topic@),
{
    let ghost fs = found_views(found@);
    let mut r: Vec<u64> = Vec::new();
    let mut i: usize = 0;
    assert(fs.take(0) =~= Seq::empty());
    while i < found.len()
        invariant
            i <= found@.len(),
            fs == found_views(found@),
            r@ == numbers_of(fs.take(i as int), topic@),
        decreases found@.len() - i,
    {
        proof {
            assert(fs.take(i + 1).drop_last() =~= fs.take(i as int));
            assert(fs.take(i + 1).last() == (found@[i as int].0@, found@[i as int].1));
        }
        if same_text(found[i].0.as_str(), topic) {
            r.push(found[i].1);
        }
        i += 1;
    }
    assert(fs.take(i as int) =~= fs);
    r
}

fn is_contiguous(ns: &Vec<u64>) -> (r: bool)
    ensures
        r == contiguous(ns@),
{
    let mut i: usize = 0;
    while i < ns.len()
        invariant
            i <= ns@.len(),
            forall|j: int| 0 <= j < i ==> #[trigger] ns@[j] == j,
        decreases ns@.len() - i,
    {
        if ns[i] != i as u64 {
            return false;
        }
        i += 1;
    }
    true
}

fn was_seen(found: &Vec<(String, u64)>, n: usize, topic: &str) -> (r: bool)
    requires
        n <= found@.len(),
    ensures
        r == seen_before(found_views(found@), n as int, topic@),
{
    let ghost fs = found_views(found@);
    let mut i: usize = 0;
    while i < n
        invariant
            i <= n <= found@.len(),
            fs == found_views(found@),
            forall|j: int| 0 <= j < i ==> (#[trigger] fs[j]).0 != topic@,
        decreases n - i,
    {
        assert(fs[i as int].0 == found@[i as int].0@);
        if same_text(found[i].0.as_str(), topic) {
            return true;
        }
        i += 1;
    }
    false
}

/// The topics that a data directory holds, with their numbers of partitions;
/// what is wrong with the directory where it is not laid out as it should be.
pub fn scan_data_dir(entries: &Vec<DirEntry>) -> (r: Result<Vec<(String, u32)>, String>)
    requires
        entries@.len() <= u32::MAX,
    ensures
        match topics_in(entries@) {
            Ok(ts) => r is Ok && topic_views(r->Ok_0@) == ts,
            Err(text) => r is Err && r->Err_0@ == text,
        },
{
    let found: Vec<(String, u64)> = match name_entries(entries) {
        Ok(v) => v,
        Err(text) => {
            return Err(text);
        },
    };
    let ghost fs = found_views(found@);
    let mut out: Vec<(String, u32)> = Vec::new();
    let mut i: usize = 0;
    assert(topic_views(out@) =~= Seq::empty());
    while i < found.len()
        invariant
            i <= found@.len(),
            fs == found_views(found@),
            named(entries@) == Ok::<Seq<Found>, Seq<char>>(fs),
            entries@.len() <= u32::MAX,
            topics_found(fs, i as int) == Ok::<Seq<(Seq<char>, u32)>, Seq<char>>(
                topic_views(out@),
            ),
        decreases found@.len() - i,
    {
        let topic: &String = &found[i].0;
        assert(fs[i as int].0 == topic@);
        if !was_seen(&found, i, topic.as_str()) {
            let ns: Vec<u64> = numbers(&found, topic.as_str());
            let sorted: Vec<u64> = sort_numbers(&ns);
            if !is_contiguous(&sorted) {
                let mut text: String = message(
                    "topic ",
                    topic.as_str(),
                    " partitions are not contiguous from 0: [",
                );
                push_list(&mut text, &sorted, sorted.len());
                text.append("]");
                proof {
                    assert(sorted@.take(sorted@.len() as int) =~= sorted@);
                    assert(text@ =~= not_contiguous(topic@, sorted@));
                    lemma_found_error(fs, i + 1, fs.len() as int);
                }
                return Err(text);
            }
            let ghost before = topic_views(out@);
            let n: u32 = crate::codec::capped32(sorted.len());
            proof {
                lemma_named_len(entries@);
                lemma_numbers_len(fs, topic@);
                lemma_sorted_len(ns@);
            }
            out.push((topic.clone(), n));
            assert(topic_views(out@) =~= before.push((topic@, n)));
        }
        i += 1;
    }
    Ok(out)
}

/// Whether a character may stand in a topic's name.
pub open spec fn is_topic_char(c: char) -> bool {
    ||| '0' <= c <= '9'
    ||| 'A' <= c <= 'Z'
    ||| 'a' <= c <= 'z'
    ||| c == '-'
    ||| c == '_'
    ||| c == '.'
}

/// Whether a topic may have a name: up to 200 plain characters, and not one of
/// the broker's own.
pub open spec fn topic_name_ok(name: Seq<char>) -> bool {
    &&& 0 < name.len() <= 200
    &&& !(name.len() >= 2 && name[0] == '_' && name[1] == '_')
    &&& forall|i: int| 0 <= i < name.len() ==> is_topic_char(#[trigger] name[i])
}

pub fn valid_topic_name(name: &str) -> (r: bool)
    ensures
        r == topic_name_ok(name@),
{
    let chars: Vec<char> = chars_of(name);
    let n: usize = chars.len();
    if n == 0 || n > 200 || (n >= 2 && chars[0] == '_' && chars[1] == '_') {
        return false;
    }
    let mut i: usize = 0;
    while i < n
        invariant
            i <= n,
            n == chars@.len(),
            chars@ == name@,
            forall|j: int| 0 <= j < i ==> is_topic_char(#[trigger] name@[j]),
        decreases n - i,
    {
        let c: char = chars[i];
        if !(('0' <= c && c <= '9') || ('A' <= c && c <= 'Z') || ('a' <= c && c <= 'z') || c == '-'
            || c == '_' || c == '.') {
            assert(!is_topic_char(name@[i as int]));
            return false;
        }
        i += 1;
    }
    true
}

/// The topics that a broker hosts from its start on: on its own, all but the
/// offsets log, which is not for clients; in a cluster none, for there its
/// partitions are opened as replica roles arrive from the controller.
pub open spec fn hosted_topics(ts: Seq<(Seq<char>, u32)>, clustered: bool) -> Seq<(Seq<char>, u32)>
    decreases ts.len(),
{
    if ts.len() == 0 || clustered {
        Seq::empty()
    } else if ts.last().0 == OFFSETS_TOPIC@ {
        hosted_topics(ts.drop_last(), clustered)
    } else {
        hosted_topics(ts.drop_last(), clustered).push(ts.last())
    }
}

/// The topics to open at a broker's start.
pub fn topics_to_open(found: &Vec<(String, u32)>, clustered: bool) -> (r: Vec<(String, u32)>)
    ensures
        topic_views(r@) == hosted_topics(topic_views(found@), clustered),
{
    let mut r: Vec<(String, u32)> = Vec::new();
    assert(topic_views(r@) =~= Seq::empty());
    if clustered {
        return r;
    }
    let ghost ts = topic_views(found@);
    let mut i: usize = 0;
    assert(ts.take(0) =~= Seq::empty());
    while i < found.len()
        invariant
            i <= found@.len(),
            !clustered,
            ts == topic_views(found@),
            topic_views(r@) == hosted_topics(ts.take(i as int), clustered),
        decreases found@.len() - i,
    {
        let ghost before = topic_views(r@);
        proof {
            assert(ts.take(i + 1).drop_last() =~= ts.take(i as int));
            assert(ts.take(i + 1).last() == (found@[i as int].0@, found@[i as int].1));
        }
        if !same_text(found[i].0.as_str(), OFFSETS_TOPIC) {
            r.push((found[i].0.clone(), found[i].1));
            assert(topic_views(r@) =~= before.push((found@[i as int].0@, found@[i as int].1)));
        }
        i += 1;
    }
    assert(ts.take(i as int) =~= ts);
    r
}

} // verus!
