//! The ingest counter, and the counters as Prometheus text.

use vstd::prelude::*;

use crate::decimal;
use crate::decimal::decimal_text;

verus! {

/// Counts committed records. The count wraps around at 64 bits.
#[derive(Debug, PartialEq)]
pub struct IngestStats {
    committed: u64,
}

impl View for IngestStats {
    type V = u64;

    closed spec fn view(&self) -> u64 {
        self.committed
    }
}

impl Default for IngestStats {
    fn default() -> (r: Self)
        ensures
            r@ == 0,
    {
        IngestStats { committed: 0 }
    }
}

/// The count after one more record.
pub open spec fn one_more(count: u64) -> int {
    (count + 1) % 0x1_0000_0000_0000_0000
}

/// How many records were counted between two readings.
pub open spec fn counted_between(committed: u64, last_committed: u64) -> int {
    (committed - last_committed) % 0x1_0000_0000_0000_0000
}

impl IngestStats {
    /// Counts one record.
    pub fn record_commit(&mut self)
        ensures
            final(self)@ == (old(self)@ + 1) % 0x1_0000_0000_0000_0000,
            final(self)@ == one_more(old(self)@),
    {
        self.committed = self.committed.wrapping_add(1);
    }

    /// The records counted so far.
    pub fn committed_count(&self) -> (n: u64)
        ensures
            n == self@,
    {
        self.committed
    }
}

/// How many records were committed since the last reading; the count may have wrapped.
pub fn committed_since(committed: u64, last_committed: u64) -> (n: u64)
    ensures
        n == (committed - last_committed) % 0x1_0000_0000_0000_0000,
        n == counted_between(committed, last_committed),
        committed >= last_committed ==> n == committed - last_committed,
{
    committed.wrapping_sub(last_committed)
}

/// One counter in the text exposition format.
pub open spec fn counter_lines(name: Seq<char>, help: Seq<char>, value: nat) -> Seq<char> {
    "# HELP "@ + name + " "@ + help + "\n# TYPE "@ + name + " counter\n"@ + name + " "@
        + decimal::decimal(value) + "\n"@
}

/// All counters in the text exposition format.
pub open spec fn metrics_of(
    ingest_total: nat,
    rollup_dropped: nat,
    textindex_dropped: nat,
) -> Seq<char> {
    counter_lines(
        "pierre_ingest_records_total"@,
        "Total records committed via ingest."@,
        ingest_total,
    ) + counter_lines(
        "pierre_rollup_dropped_total"@,
        "Total rollup contributions dropped because the channel was full."@,
        rollup_dropped,
    ) + counter_lines(
        "pierre_textindex_dropped_total"@,
        "Total textindex contributions dropped because the channel was full."@,
        textindex_dropped,
    )
}

fn push_counter(out: &mut String, name: &str, help: &str, value: u64)
    ensures
        final(out)@ == old(out)@ + counter_lines(name@, help@, value as nat),
{
    let number: String = decimal_text(value);
    out.append("# HELP ");
    out.append(name);
    out.append(" ");
    out.append(help);
    out.append("\n# TYPE ");
    out.append(name);
    out.append(" counter\n");
    out.append(name);
    out.append(" ");
    out.append(number.as_str());
    out.append("\n");
    assert(out@ =~= old(out)@ + counter_lines(name@, help@, value as nat));
}

/// Writes the counters in the Prometheus text exposition format. A pipeline that does not
/// run has dropped nothing.
pub fn metrics_text(
    ingest_total: u64,
    rollup_dropped: Option<u64>,
    textindex_dropped: Option<u64>,
) -> (r: String)
    ensures
        r@ == metrics_of(
            ingest_total as nat,
            (match rollup_dropped {
                Some(n) => n,
                None => 0,
            }) as nat,
            (match textindex_dropped {
                Some(n) => n,
                None => 0,
            }) as nat,
        ),
{
    let rollup: u64 = match rollup_dropped {
        Some(n) => n,
        None => 0,
    };
    let textindex: u64 = match textindex_dropped {
        Some(n) => n,
        None => 0,
    };
    let mut out: String = String::new();
    push_counter(
        &mut out,
        "pierre_ingest_records_total",
        "Total records committed via ingest.",
        ingest_total,
    );
    push_counter(
        &mut out,
        "pierre_rollup_dropped_total",
        "Total rollup contributions dropped because the channel was full.",
        rollup,
    );
    push_counter(
        &mut out,
        "pierre_textindex_dropped_total",
        "Total textindex contributions dropped because the channel was full.",
        textindex,
    );
    assert(out@ =~= metrics_of(ingest_total as nat, rollup as nat, textindex as nat));
    out
}

/// Reading the counter after a commit, against the reading before, counts one record.
pub proof fn law_one_commit_counts_one(before: u64, after: u64)
    requires
        after == (before + 1) % 0x1_0000_0000_0000_0000,
    ensures
        (after - before) % 0x1_0000_0000_0000_0000 == 1,
{
}

/// Each counter stands in the text on a line of its own: its name, a space, and its value
/// in decimal.
pub proof fn law_every_counter_has_its_line(ingest: nat, rollup: nat, textindex: nat)
    ensures
        exists|a: Seq<char>, b: Seq<char>|
            a.last() == '\n' && metrics_of(ingest, rollup, textindex) == #[trigger] (a
                + "pierre_ingest_records_total"@ + " "@ + decimal::decimal(ingest) + "\n"@ + b),
        exists|a: Seq<char>, b: Seq<char>|
            a.last() == '\n' && metrics_of(ingest, rollup, textindex) == #[trigger] (a
                + "pierre_rollup_dropped_total"@ + " "@ + decimal::decimal(rollup) + "\n"@ + b),
        exists|a: Seq<char>, b: Seq<char>|
            a.last() == '\n' && metrics_of(ingest, rollup, textindex) == #[trigger] (a
                + "pierre_textindex_dropped_total"@ + " "@ + decimal::decimal(textindex) + "\n"@
                + b),
{
    let i = "pierre_ingest_records_total"@;
    let r = "pierre_rollup_dropped_total"@;
    let t = "pierre_textindex_dropped_total"@;
    let ih = "Total records committed via ingest."@;
    let rh = "Total rollup contributions dropped because the channel was full."@;
    let th = "Total textindex contributions dropped because the channel was full."@;
    let one = counter_lines(i, ih, ingest);
    let two = counter_lines(r, rh, rollup);
    let three = counter_lines(t, th, textindex);
    let none = Seq::<char>::empty();
    lemma_counter_line(none, i, ih, ingest, two + three);
    lemma_counter_line(one, r, rh, rollup, three);
    lemma_counter_line(one + two, t, th, textindex, none);
    let all = metrics_of(ingest, rollup, textindex);
    assert(all =~= none + one + (two + three));
    assert(all =~= one + two + three);
    assert(all =~= one + two + three + none);
}

proof fn lemma_counter_line(
    before: Seq<char>,
    name: Seq<char>,
    help: Seq<char>,
    value: nat,
    after: Seq<char>,
)
    ensures
        exists|a: Seq<char>, b: Seq<char>|
            a.last() == '\n' && before + counter_lines(name, help, value) + after == #[trigger] (a
                + name + " "@ + decimal::decimal(value) + "\n"@ + b),
{
    reveal_strlit(" counter\n");
    let head = before + "# HELP "@ + name + " "@ + help + "\n# TYPE "@ + name + " counter\n"@;
    assert(head.last() == " counter\n"@.last());
    assert(before + counter_lines(name, help, value) + after =~= head + name + " "@
        + decimal::decimal(value) + "\n"@ + after);
}

/// The text is the three counters, one after the other, each with a line of help and a line
/// of its type before its value.
pub proof fn law_metrics_layout(ingest: nat, rollup: nat, textindex: nat)
    ensures
        metrics_of(ingest, rollup, textindex) == "# HELP "@ + "pierre_ingest_records_total"@ + " "@
            + "Total records committed via ingest."@ + "\n# TYPE "@
            + "pierre_ingest_records_total"@ + " counter\n"@ + "pierre_ingest_records_total"@
            + " "@ + decimal::decimal(ingest) + "\n"@ + ("# HELP "@
            + "pierre_rollup_dropped_total"@ + " "@
            + "Total rollup contributions dropped because the channel was full."@ + "\n# TYPE "@
            + "pierre_rollup_dropped_total"@ + " counter\n"@ + "pierre_rollup_dropped_total"@
            + " "@ + decimal::decimal(rollup) + "\n"@) + ("# HELP "@
            + "pierre_textindex_dropped_total"@ + " "@
            + "Total textindex contributions dropped because the channel was full."@
            + "\n# TYPE "@ + "pierre_textindex_dropped_total"@ + " counter\n"@
            + "pierre_textindex_dropped_total"@ + " "@ + decimal::decimal(textindex) + "\n"@),
{
}

/// Between two readings just as many records are counted as were committed between them,
/// also where the counter wrapped around: one commit more counts one more.
pub proof fn law_readings_count_the_commits(first: u64, second: u64, next: u64)
    requires
        next == one_more(second),
    ensures
        counted_between(first, first) == 0,
        counted_between(next, second) == 1,
        counted_between(second, first) < u64::MAX ==> counted_between(next, first)
            == counted_between(second, first) + 1,
        second < u64::MAX ==> next == second + 1,
        second == u64::MAX ==> next == 0,
{
}

} // verus!
