//! A report as text.

use super::Report;
use crate::order::texts;
use crate::text::{decimal, list_text, push_decimal, push_list};
use vstd::prelude::*;
use vstd::string::*;

verus! {

/// One line for each text.
pub open spec fn lines_text(lead: Seq<char>, v: Seq<Seq<char>>) -> Seq<char>
    decreases v.len(),
{
    if v.len() == 0 {
        Seq::empty()
    } else {
        lines_text(lead, v.drop_last()) + lead + v.last() + "\n"@
    }
}

pub open spec fn head_text(r: Report) -> Seq<char> {
    "checker: "@ + decimal(r.produced_acked as nat) + " acked, "@ + decimal(
        r.consumed_total as nat,
    ) + " consumed ("@ + decimal(r.distinct_consumed as nat) + " distinct), "@ + decimal(
        r.duplicate_deliveries as nat,
    ) + " duplicate deliveries\n"@
}

pub open spec fn delivery_text(missing: Seq<u64>) -> Seq<char> {
    if missing.len() == 0 {
        "  at-least-once: OK\n"@
    } else {
        "  at-least-once: VIOLATED — "@ + decimal(missing.len())
            + " acked ids never consumed (first few: ["@ + list_text(
            missing.take(
                if missing.len() < 10 {
                    missing.len() as int
                } else {
                    10
                },
            ),
        ) + "])\n"@
    }
}

/// A report as text.
pub open spec fn report_text(r: Report) -> Seq<char> {
    head_text(r) + delivery_text(r.missing_ids@) + lines_text(
        "  monotonicity: VIOLATED — "@,
        texts(r.monotonicity_violations@),
    ) + lines_text("  offset consistency: VIOLATED — "@, texts(r.divergent_offsets@)) + lines_text(
        "  gap-free: VIOLATED — "@,
        texts(r.offset_gaps@),
    )
}

fn push_lines(out: &mut String, lead: &str, v: &Vec<String>)
    ensures
        final(out)@ == old(out)@ + lines_text(lead@, texts(v@)),
{
    let ghost start = out@;
    let ghost all = texts(v@);
    let mut i: usize = 0;
    assert(all.take(0) =~= Seq::empty());
    assert(out@ =~= start + lines_text(lead@, all.take(0)));
    while i < v.len()
        invariant
            i <= v@.len(),
            all == texts(v@),
            out@ == start + lines_text(lead@, all.take(i as int)),
        decreases v@.len() - i,
    {
        out.append(lead);
        out.append(v[i].as_str());
        out.append("\n");
        proof {
            assert(all.take(i + 1).drop_last() =~= all.take(i as int));
            assert(all.take(i + 1).last() == v@[i as int]@);
            assert(out@ =~= start + lines_text(lead@, all.take(i + 1)));
        }
        i = i + 1;
    }
    assert(all.take(i as int) =~= all);
}

impl Report {
    /// This report as text.
    pub fn text(&self) -> (out: String)
        ensures
            out@ == report_text(*self),
    {
        let mut out: String = "checker: ".to_owned();
        push_decimal(&mut out, self.produced_acked as u64);
        out.append(" acked, ");
        push_decimal(&mut out, self.consumed_total as u64);
        out.append(" consumed (");
        push_decimal(&mut out, self.distinct_consumed as u64);
        out.append(" distinct), ");
        push_decimal(&mut out, self.duplicate_deliveries as u64);
        out.append(" duplicate deliveries\n");
        assert(out@ == head_text(*self));
        let ghost head = out@;
        if self.missing_ids.len() == 0 {
            out.append("  at-least-once: OK\n");
        } else {
            out.append("  at-least-once: VIOLATED — ");
            push_decimal(&mut out, self.missing_ids.len() as u64);
            out.append(" acked ids never consumed (first few: [");
            let n: usize = if self.missing_ids.len() < 10 {
                self.missing_ids.len()
            } else {
                10
            };
            push_list(&mut out, &self.missing_ids, n);
            out.append("])\n");
        }
        assert(out@ =~= head + delivery_text(self.missing_ids@));
        push_lines(&mut out, "  monotonicity: VIOLATED — ", &self.monotonicity_violations);
        push_lines(&mut out, "  offset consistency: VIOLATED — ", &self.divergent_offsets);
        push_lines(&mut out, "  gap-free: VIOLATED — ", &self.offset_gaps);
        out
    }
}

} // verus!
