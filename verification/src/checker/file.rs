//! Histories as text, one event per line (`P <id> <topic>` / `C <consumer>
//! <gen> <topic> <partition> <offset> <id>`), so verification is genuinely
//! offline.

use super::{Consumed, ConsumedRecord, Events, History, Produced, ProducedRecord};
use crate::text::{
    char_rows, chars_of, decimal, is_space, is_word, law_parse_decimal, lemma_decimal_word,
    lemma_lines_first, lemma_words_first, lemma_words_one, lines, parse_number, parse_uint,
    push_decimal, same_chars, split_lines, split_words, string_of, words,
};
use vstd::prelude::*;
use vstd::string::*;

verus! {

/// The line of an acked produce.
pub open spec fn produced_line(p: Produced) -> Seq<char> {
    "P "@ + decimal(p.id as nat) + " "@ + p.topic
}

/// The line of a consumed record.
pub open spec fn consumed_line(c: Consumed) -> Seq<char> {
    "C "@ + c.consumer + " "@ + decimal(c.generation as nat) + " "@ + c.topic + " "@ + decimal(
        c.partition as nat,
    ) + " "@ + decimal(c.offset as nat) + " "@ + decimal(c.id as nat)
}

pub open spec fn produced_text(ps: Seq<Produced>) -> Seq<char>
    decreases ps.len(),
{
    if ps.len() == 0 {
        Seq::empty()
    } else {
        produced_text(ps.drop_last()) + produced_line(ps.last()) + "\n"@
    }
}

pub open spec fn consumed_text(cs: Seq<Consumed>) -> Seq<char>
    decreases cs.len(),
{
    if cs.len() == 0 {
        Seq::empty()
    } else {
        consumed_text(cs.drop_last()) + consumed_line(cs.last()) + "\n"@
    }
}

/// The text of a history: all produced ids, then all consumed records.
pub open spec fn history_text(e: Events) -> Seq<char> {
    produced_text(e.produced) + consumed_text(e.consumed)
}

/// The record that the words of a `C` line say.
pub open spec fn consumed_of(w: Seq<Seq<char>>) -> Option<Consumed> {
    match (
        parse_number(w[2], u64::MAX as nat),
        parse_number(w[4], u32::MAX as nat),
        parse_number(w[5], u64::MAX as nat),
        parse_number(w[6], u64::MAX as nat),
    ) {
        (Ok(generation), Ok(partition), Ok(offset), Ok(id)) => Some(
            Consumed {
                consumer: w[1],
                generation: generation as u64,
                topic: w[3],
                partition: partition as u32,
                offset: offset as u64,
                id: id as u64,
            },
        ),
        _ => None,
    }
}

/// The events with those of one line more, if it says some.
pub open spec fn with_line(e: Events, line: Seq<char>) -> Option<Events> {
    let w = words(line);
    if w.len() == 0 {
        Some(e)
    } else if w.len() == 3 && w[0] == "P"@ {
        match parse_number(w[1], u64::MAX as nat) {
            Ok(id) => Some(
                Events { produced: e.produced.push(Produced { id: id as u64, topic: w[2] }), ..e },
            ),
            Err(_) => None,
        }
    } else if w.len() == 7 && w[0] == "C"@ {
        match consumed_of(w) {
            Some(c) => Some(Events { consumed: e.consumed.push(c), ..e }),
            None => None,
        }
    } else {
        None
    }
}

/// The events with those of all lines more, or the first line that says none.
pub open spec fn with_lines(e: Events, ls: Seq<Seq<char>>) -> Result<Events, Seq<char>>
    decreases ls.len(),
{
    if ls.len() == 0 {
        Ok(e)
    } else {
        match with_line(e, ls[0]) {
            Some(f) => with_lines(f, ls.skip(1)),
            None => Err("malformed history line: "@ + ls[0]),
        }
    }
}

pub open spec fn no_events() -> Events {
    Events { produced: Seq::empty(), consumed: Seq::empty() }
}

/// Names without white space, where they are checked when a history is saved.
pub open spec fn savable(e: Events) -> bool {
    &&& forall|i: int, k: int|
        0 <= i < e.produced.len() && 0 <= k < e.produced[i].topic.len() ==> !is_space(
            #[trigger] e.produced[i].topic[k],
        )
    &&& forall|i: int, k: int|
        0 <= i < e.consumed.len() && 0 <= k < e.consumed[i].consumer.len() ==> !is_space(
            #[trigger] e.consumed[i].consumer[k],
        )
}

/// All names are words.
pub open spec fn well_named(e: Events) -> bool {
    &&& forall|i: int| 0 <= i < e.produced.len() ==> is_word((#[trigger] e.produced[i]).topic)
    &&& forall|i: int|
        0 <= i < e.consumed.len() ==> is_word((#[trigger] e.consumed[i]).consumer) && is_word(
            e.consumed[i].topic,
        )
}

fn word_is(w: &Vec<char>, s: &str) -> (r: bool)
    ensures
        r == (w@ == s@),
{
    let t: Vec<char> = chars_of(s);
    same_chars(w.as_slice(), t.as_slice())
}

fn push_produced(out: &mut String, p: &ProducedRecord)
    ensures
        final(out)@ == old(out)@ + produced_line(p@) + "\n"@,
{
    let ghost start = out@;
    out.append("P ");
    push_decimal(out, p.id);
    out.append(" ");
    out.append(p.topic.as_str());
    out.append("\n");
    assert(out@ =~= start + produced_line(p@) + "\n"@);
}

fn push_consumed(out: &mut String, c: &ConsumedRecord)
    ensures
        final(out)@ == old(out)@ + consumed_line(c@) + "\n"@,
{
    let ghost start = out@;
    out.append("C ");
    out.append(c.consumer.as_str());
    out.append(" ");
    push_decimal(out, c.generation);
    out.append(" ");
    out.append(c.topic.as_str());
    out.append(" ");
    push_decimal(out, c.partition as u64);
    out.append(" ");
    push_decimal(out, c.offset);
    out.append(" ");
    push_decimal(out, c.id);
    out.append("\n");
    assert(out@ =~= start + consumed_line(c@) + "\n"@);
}

fn malformed(line: &Vec<char>) -> (text: String)
    ensures
        text@ == "malformed history line: "@ + line@,
{
    let mut text: String = "malformed history line: ".to_owned();
    text.append(string_of(line.as_slice()).as_str());
    text
}

/// The record that the words of a `C` line say.
fn read_consumed(w: &Vec<Vec<char>>) -> (r: Option<ConsumedRecord>)
    requires
        w@.len() == 7,
    ensures
        match consumed_of(char_rows(w@)) {
            Some(c) => r is Some && r->0@ == c,
            None => r is None,
        },
{
    let ghost rows = char_rows(w@);
    assert(forall|i: int| 0 <= i < 7 ==> rows[i] == (#[trigger] w@[i])@);
    let generation: u64 = match parse_uint(w[2].as_slice(), u64::MAX) {
        Ok(n) => n,
        Err(_) => {
            return None;
        },
    };
    let partition: u32 = match parse_uint(w[4].as_slice(), u32::MAX as u64) {
        Ok(n) => n as u32,
        Err(_) => {
            return None;
        },
    };
    let offset: u64 = match parse_uint(w[5].as_slice(), u64::MAX) {
        Ok(n) => n,
        Err(_) => {
            return None;
        },
    };
    let id: u64 = match parse_uint(w[6].as_slice(), u64::MAX) {
        Ok(n) => n,
        Err(_) => {
            return None;
        },
    };
    Some(
        ConsumedRecord {
            consumer: string_of(w[1].as_slice()),
            generation,
            topic: string_of(w[3].as_slice()),
            partition,
            offset,
            id,
        },
    )
}

impl History {
    /// The text to persist this history as. Names must not contain whitespace.
    pub fn save(&self) -> (out: String)
        requires
            savable(self@),
        ensures
            out@ == history_text(self@),
    {
        let mut out: String = String::new();
        let ghost ps = self@.produced;
        let ghost cs = self@.consumed;
        let mut i: usize = 0;
        assert(out@ =~= produced_text(ps.take(0)));
        while i < self.produced.len()
            invariant
                i <= self.produced@.len(),
                ps == self@.produced,
                out@ == produced_text(ps.take(i as int)),
            decreases self.produced@.len() - i,
        {
            push_produced(&mut out, &self.produced[i]);
            proof {
                assert(ps.take(i + 1).drop_last() =~= ps.take(i as int));
                assert(ps.take(i + 1).last() == self.produced@[i as int]@);
            }
            i = i + 1;
        }
        assert(ps.take(i as int) =~= ps);
        let ghost head = out@;
        let mut k: usize = 0;
        assert(out@ =~= head + consumed_text(cs.take(0)));
        while k < self.consumed.len()
            invariant
                k <= self.consumed@.len(),
                cs == self@.consumed,
                out@ == head + consumed_text(cs.take(k as int)),
            decreases self.consumed@.len() - k,
        {
            push_consumed(&mut out, &self.consumed[k]);
            proof {
                assert(cs.take(k + 1).drop_last() =~= cs.take(k as int));
                assert(cs.take(k + 1).last() == self.consumed@[k as int]@);
                assert(out@ =~= head + consumed_text(cs.take(k + 1)));
            }
            k = k + 1;
        }
        assert(cs.take(k as int) =~= cs);
        out
    }

    /// Adds the events that a line says; `false` if it says none.
    fn read_line(&mut self, line: &Vec<char>) -> (r: bool)
        ensures
            match with_line(old(self)@, line@) {
                Some(e) => r && final(self)@ == e,
                None => !r,
            },
    {
        let ghost before = self@;
        let w: Vec<Vec<char>> = split_words(line.as_slice());
        let ghost rows = char_rows(w@);
        assert(forall|i: int| 0 <= i < w@.len() ==> rows[i] == (#[trigger] w@[i])@);
        if w.len() == 0 {
            return true;
        }
        if w.len() == 3 && word_is(&w[0], "P") {
            match parse_uint(w[1].as_slice(), u64::MAX) {
                Ok(id) => {
                    self.record_produced(id, string_of(w[2].as_slice()).as_str());
                    true
                },
                Err(_) => false,
            }
        } else if w.len() == 7 && word_is(&w[0], "C") {
            match read_consumed(&w) {
                Some(c) => {
                    let ghost view = c@;
                    self.consumed.push(c);
                    assert(self@.consumed =~= before.consumed.push(view));
                    true
                },
                None => false,
            }
        } else {
            false
        }
    }

    /// The history that a text says.
    pub fn load(text: &str) -> (r: Result<History, String>)
        ensures
            match with_lines(no_events(), lines(text@)) {
                Ok(e) => r is Ok && r->Ok_0@ == e,
                Err(t) => r is Err && r->Err_0@ == t,
            },
    {
        let chars: Vec<char> = chars_of(text);
        let ls: Vec<Vec<char>> = split_lines(chars.as_slice());
        let ghost all = char_rows(ls@);
        let mut history: History = History::new();
        let mut i: usize = 0;
        assert(history@.produced =~= Seq::empty());
        assert(history@.consumed =~= Seq::empty());
        assert(all.skip(0) =~= all);
        while i < ls.len()
            invariant
                i <= ls@.len(),
                all == char_rows(ls@),
                all == lines(text@),
                with_lines(no_events(), all) == with_lines(history@, all.skip(i as int)),
            decreases ls@.len() - i,
        {
            let line: &Vec<char> = &ls[i];
            proof {
                assert(all.skip(i as int)[0] == line@);
                assert(all.skip(i as int).skip(1) =~= all.skip(i + 1));
            }
            if !history.read_line(line) {
                return Err(malformed(line));
            }
            i = i + 1;
        }
        assert(all.skip(i as int) =~= Seq::empty());
        Ok(history)
    }
}

/// The words of a produced line are its fields.
proof fn lemma_produced_words(p: Produced)
    requires
        is_word(p.topic),
    ensures
        words(produced_line(p)) == seq!["P"@, decimal(p.id as nat), p.topic],
{
    reveal_strlit("P");
    reveal_strlit("P ");
    reveal_strlit(" ");
    let id = decimal(p.id as nat);
    lemma_decimal_word(p.id as nat);
    let a = p.topic;
    let b = id + (seq![' '] + a);
    let line = "P"@ + (seq![' '] + b);
    assert(produced_line(p) =~= line);
    lemma_words_one(a);
    lemma_words_first(id, a);
    lemma_words_first("P"@, b);
    assert(seq!["P"@] + (seq![id] + seq![a]) =~= seq!["P"@, id, a]);
}

/// The words of a consumed line are its fields.
proof fn lemma_consumed_words(c: Consumed)
    requires
        is_word(c.consumer),
        is_word(c.topic),
    ensures
        words(consumed_line(c)) == seq![
            "C"@,
            c.consumer,
            decimal(c.generation as nat),
            c.topic,
            decimal(c.partition as nat),
            decimal(c.offset as nat),
            decimal(c.id as nat),
        ],
{
    reveal_strlit("C");
    reveal_strlit("C ");
    reveal_strlit(" ");
    let w1 = c.consumer;
    let w2 = decimal(c.generation as nat);
    let w3 = c.topic;
    let w4 = decimal(c.partition as nat);
    let w5 = decimal(c.offset as nat);
    let w6 = decimal(c.id as nat);
    lemma_decimal_word(c.generation as nat);
    lemma_decimal_word(c.partition as nat);
    lemma_decimal_word(c.offset as nat);
    lemma_decimal_word(c.id as nat);
    let sp = seq![' '];
    let l5 = w5 + (sp + w6);
    let l4 = w4 + (sp + l5);
    let l3 = w3 + (sp + l4);
    let l2 = w2 + (sp + l3);
    let l1 = w1 + (sp + l2);
    let l0 = "C"@ + (sp + l1);
    assert(consumed_line(c) =~= l0);
    lemma_words_one(w6);
    lemma_words_first(w5, w6);
    lemma_words_first(w4, l5);
    lemma_words_first(w3, l4);
    lemma_words_first(w2, l3);
    lemma_words_first(w1, l2);
    lemma_words_first("C"@, l1);
    assert(words(l0) =~= seq!["C"@, w1, w2, w3, w4, w5, w6]);
}

proof fn lemma_one_line(line: Seq<char>)
    requires
        forall|i: int| 0 <= i < line.len() ==> (#[trigger] line[i] == ' ' || !is_space(line[i])),
        line.len() > 0,
        !is_space(line.last()),
    ensures
        forall|i: int| 0 <= i < line.len() ==> #[trigger] line[i] != '\n',
        line.last() != '\r',
{
}

proof fn lemma_produced_line(p: Produced)
    requires
        is_word(p.topic),
    ensures
        forall|i: int| 0 <= i < produced_line(p).len() ==> #[trigger] produced_line(p)[i] != '\n',
        produced_line(p).len() > 0,
        produced_line(p).last() != '\r',
{
    reveal_strlit("P ");
    reveal_strlit(" ");
    lemma_decimal_word(p.id as nat);
    let line = produced_line(p);
    let a = "P "@ + decimal(p.id as nat);
    let b = a + " "@;
    assert(line == b + p.topic);
    assert forall|i: int| 0 <= i < line.len() implies (#[trigger] line[i] == ' ' || !is_space(
        line[i],
    )) by {
        if i < 2 {
            assert(line[i] == "P "@[i]);
        } else if i < a.len() {
            assert(line[i] == decimal(p.id as nat)[i - 2]);
        } else if i >= b.len() {
            assert(line[i] == p.topic[i - b.len()]);
        }
    }
    assert(line.last() == p.topic.last());
    assert(p.topic.last() == p.topic[p.topic.len() - 1]);
    lemma_one_line(line);
}

proof fn lemma_consumed_line(c: Consumed)
    requires
        is_word(c.consumer),
        is_word(c.topic),
    ensures
        forall|i: int| 0 <= i < consumed_line(c).len() ==> #[trigger] consumed_line(c)[i] != '\n',
        consumed_line(c).len() > 0,
        consumed_line(c).last() != '\r',
{
    reveal_strlit("C ");
    reveal_strlit(" ");
    let sp = " "@;
    let d2 = decimal(c.generation as nat);
    let d4 = decimal(c.partition as nat);
    let d5 = decimal(c.offset as nat);
    let d6 = decimal(c.id as nat);
    lemma_decimal_word(c.generation as nat);
    lemma_decimal_word(c.partition as nat);
    lemma_decimal_word(c.offset as nat);
    lemma_decimal_word(c.id as nat);
    let s1 = "C "@ + c.consumer;
    lemma_quiet_word(c.consumer);
    assert(quiet("C "@));
    lemma_quiet_add("C "@, c.consumer);
    assert(quiet(sp));
    lemma_quiet_add(s1, sp);
    lemma_quiet_word(d2);
    lemma_quiet_add(s1 + sp, d2);
    let s2 = s1 + sp + d2;
    lemma_quiet_add(s2, sp);
    lemma_quiet_word(c.topic);
    lemma_quiet_add(s2 + sp, c.topic);
    let s3 = s2 + sp + c.topic;
    lemma_quiet_add(s3, sp);
    lemma_quiet_word(d4);
    lemma_quiet_add(s3 + sp, d4);
    let s4 = s3 + sp + d4;
    lemma_quiet_add(s4, sp);
    lemma_quiet_word(d5);
    lemma_quiet_add(s4 + sp, d5);
    let s5 = s4 + sp + d5;
    lemma_quiet_add(s5, sp);
    lemma_quiet_word(d6);
    lemma_quiet_add(s5 + sp, d6);
    let line = consumed_line(c);
    assert(line == s5 + sp + d6);
    assert(line.last() == d6.last());
    assert(d6.last() == d6[d6.len() - 1]);
}

/// No character of `s` ends a line.
spec fn quiet(s: Seq<char>) -> bool {
    forall|i: int| 0 <= i < s.len() ==> #[trigger] s[i] != '\n'
}

proof fn lemma_quiet_word(s: Seq<char>)
    requires
        is_word(s),
    ensures
        quiet(s),
{
    assert forall|i: int| 0 <= i < s.len() implies #[trigger] s[i] != '\n' by {
        assert(!is_space(s[i]));
    }
}

proof fn lemma_quiet_add(a: Seq<char>, b: Seq<char>)
    requires
        quiet(a),
        quiet(b),
    ensures
        quiet(a + b),
{
    assert forall|i: int| 0 <= i < (a + b).len() implies #[trigger] (a + b)[i] != '\n' by {
        if i < a.len() {
            assert((a + b)[i] == a[i]);
        } else {
            assert((a + b)[i] == b[i - a.len()]);
        }
    }
}

/// The lines of a text of produced ids, with more text behind it.
proof fn lemma_load_produced(e: Events, ps: Seq<Produced>, rest: Seq<char>)
    requires
        forall|i: int| 0 <= i < ps.len() ==> is_word((#[trigger] ps[i]).topic),
    ensures
        with_lines(e, lines(produced_text(ps) + rest)) == with_lines(
            Events { produced: e.produced + ps, ..e },
            lines(rest),
        ),
    decreases ps.len(),
{
    if ps.len() == 0 {
        assert(produced_text(ps) + rest =~= rest);
        assert(e.produced + ps =~= e.produced);
    } else {
        let head = ps.drop_last();
        let p = ps.last();
        assert(p == ps[ps.len() - 1]);
        let line = produced_line(p);
        reveal_strlit("\n");
        let tail = line + (seq!['\n'] + rest);
        assert(produced_text(ps) + rest =~= produced_text(head) + tail);
        lemma_load_produced(e, head, tail);
        lemma_produced_line(p);
        lemma_lines_first(line, rest);
        lemma_produced_words(p);
        law_parse_decimal(p.id as nat, u64::MAX as nat);
        let mid = Events { produced: e.produced + head, ..e };
        assert((seq![line] + lines(rest)).skip(1) =~= lines(rest));
        assert(e.produced + ps =~= (e.produced + head).push(p));
    }
}

proof fn lemma_load_consumed(e: Events, cs: Seq<Consumed>, rest: Seq<char>)
    requires
        forall|i: int|
            0 <= i < cs.len() ==> is_word((#[trigger] cs[i]).consumer) && is_word(cs[i].topic),
    ensures
        with_lines(e, lines(consumed_text(cs) + rest)) == with_lines(
            Events { consumed: e.consumed + cs, ..e },
            lines(rest),
        ),
    decreases cs.len(),
{
    if cs.len() == 0 {
        assert(consumed_text(cs) + rest =~= rest);
        assert(e.consumed + cs =~= e.consumed);
    } else {
        let head = cs.drop_last();
        let c = cs.last();
        assert(c == cs[cs.len() - 1]);
        let line = consumed_line(c);
        reveal_strlit("\n");
        let tail = line + (seq!['\n'] + rest);
        assert(consumed_text(cs) + rest =~= consumed_text(head) + tail);
        lemma_load_consumed(e, head, tail);
        lemma_consumed_line(c);
        lemma_lines_first(line, rest);
        lemma_consumed_words(c);
        reveal_strlit("C");
        reveal_strlit("P");
        law_parse_decimal(c.generation as nat, u64::MAX as nat);
        law_parse_decimal(c.partition as nat, u32::MAX as nat);
        law_parse_decimal(c.offset as nat, u64::MAX as nat);
        law_parse_decimal(c.id as nat, u64::MAX as nat);
        assert((seq![line] + lines(rest)).skip(1) =~= lines(rest));
        assert(e.consumed + cs =~= (e.consumed + head).push(c));
    }
}

/// Loading the text that a history was saved as gives the history back, and so
/// every verdict on it, where all names are words.
pub proof fn law_history_roundtrip(e: Events)
    requires
        well_named(e),
    ensures
        with_lines(no_events(), lines(history_text(e))) == Ok::<Events, Seq<char>>(e),
{
    let all = history_text(e);
    lemma_load_produced(no_events(), e.produced, consumed_text(e.consumed));
    let mid = Events { produced: no_events().produced + e.produced, ..no_events() };
    lemma_load_consumed(mid, e.consumed, Seq::empty());
    assert(consumed_text(e.consumed) + Seq::<char>::empty() =~= consumed_text(e.consumed));
    assert(Seq::<Produced>::empty() + e.produced =~= e.produced);
    assert(Seq::<Consumed>::empty() + e.consumed =~= e.consumed);
}

} // verus!
