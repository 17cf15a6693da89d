//! The statistics collector.
//!
//! One forward pass over the persisted lines, 1-based line numbering. A
//! line that reads as a positive decimal numeral is classified by parity
//! and folded into the running record; any other line is reported as a
//! per-line failure and skipped, never aborting the pass. The running
//! maximum is replaced only by a strictly greater value, so the earliest
//! position of the maximum is kept, and the stopping time is the line
//! number of the last successfully parsed line.

use vstd::prelude::*;

use crate::big::Big;
use crate::decimal::{
    dec_rep, lemma_dec_rep_digits, lemma_dec_rep_value, lemma_trim_digits_identity,
    positive_decimal_value,
};
use crate::parse::parse_positive_decimal;

verus! {

/// Parity classification of a sequence element, the one datum the display
/// collaborator renders an element with.
#[derive(Debug, Clone, Copy, PartialEq, Eq, Structural)]
pub enum Parity {
    Even,
    Odd,
}

/// The parity of a value.
pub open spec fn parity_of(v: nat) -> Parity {
    if v % 2 == 0 {
        Parity::Even
    } else {
        Parity::Odd
    }
}

/// Mathematical content of a statistics record.
pub struct StatsView {
    pub stopping_time: nat,
    pub even_count: nat,
    pub odd_count: nat,
    pub max_value: nat,
    pub max_position: nat,
}

/// The record before any line was observed.
pub open spec fn stats_init() -> StatsView {
    StatsView { stopping_time: 0, even_count: 0, odd_count: 0, max_value: 0, max_position: 0 }
}

/// Folds one line, numbered `line_no`, into the record: a parsable line
/// bumps its parity's counter, moves the stopping time to its line number
/// and takes the maximum over on a strictly greater value; a malformed
/// line changes nothing.
pub open spec fn stats_step(st: StatsView, line_no: nat, line: Seq<u8>) -> StatsView {
    match positive_decimal_value(line) {
        Some(v) => StatsView {
            stopping_time: line_no,
            even_count: if v % 2 == 0 {
                st.even_count + 1
            } else {
                st.even_count
            },
            odd_count: if v % 2 == 0 {
                st.odd_count
            } else {
                st.odd_count + 1
            },
            max_value: if v > st.max_value {
                v
            } else {
                st.max_value
            },
            max_position: if v > st.max_value {
                line_no
            } else {
                st.max_position
            },
        },
        None => st,
    }
}

/// The record after one full pass over `lines`.
pub open spec fn stats_fold(lines: Seq<Seq<u8>>) -> StatsView
    decreases lines.len(),
{
    if lines.len() == 0 {
        stats_init()
    } else {
        stats_step(stats_fold(lines.drop_last()), lines.len() as nat, lines.last())
    }
}

/// Summary statistics of a persisted sequence: total of successfully read
/// lines (by the line number of the last one), parity counts, maximum
/// value and the 1-based line of its first occurrence.
pub struct StatisticsRecord {
    pub stopping_time: usize,
    pub even_count: usize,
    pub odd_count: usize,
    pub max_value: Big,
    pub max_position: usize,
}

impl View for StatisticsRecord {
    type V = StatsView;

    open spec fn view(&self) -> StatsView {
        StatsView {
            stopping_time: self.stopping_time as nat,
            even_count: self.even_count as nat,
            odd_count: self.odd_count as nat,
            max_value: self.max_value.value(),
            max_position: self.max_position as nat,
        }
    }
}

/// Everything one pass yields: the final record, and per line either the
/// parsed value with its parity or the mark of a malformed line.
pub struct CollectReport {
    pub record: StatisticsRecord,
    pub outcomes: Vec<Option<(Big, Parity)>>,
}

/// Reads the persisted sequence, line by line and in order, into a
/// statistics record, reporting each malformed line's outcome as `None`
/// and carrying on.
pub fn collect(lines: &Vec<Vec<u8>>) -> (r: CollectReport)
    ensures
        r.record@ == stats_fold(lines.deep_view()),
        r.record.max_value.wf(),
        r.outcomes@.len() == lines@.len(),
        forall|i: int|
            0 <= i < lines@.len() ==> match positive_decimal_value(lines.deep_view()[i]) {
                Some(v) => (#[trigger] r.outcomes@[i]) matches Some(p) && p.0.wf()
                    && p.0.value() == v && p.1 == parity_of(v),
                None => r.outcomes@[i] is None,
            },
{
    let n: usize = lines.len();
    let mut outcomes: Vec<Option<(Big, Parity)>> = Vec::new();
    let mut rec = StatisticsRecord {
        stopping_time: 0,
        even_count: 0,
        odd_count: 0,
        max_value: Big::zero(),
        max_position: 0,
    };
    let mut i: usize = 0;
    proof {
        assert(lines.deep_view().subrange(0, 0) =~= Seq::<Seq<u8>>::empty());
    }
    while i < n
        invariant
            0 <= i <= n,
            n == lines@.len(),
            lines.deep_view().len() == n,
            rec@ == stats_fold(lines.deep_view().subrange(0, i as int)),
            rec.max_value.wf(),
            rec.even_count + rec.odd_count <= i,
            outcomes@.len() == i,
            forall|j: int|
                0 <= j < i ==> match positive_decimal_value(lines.deep_view()[j]) {
                    Some(v) => (#[trigger] outcomes@[j]) matches Some(p) && p.0.wf()
                        && p.0.value() == v && p.1 == parity_of(v),
                    None => outcomes@[j] is None,
                },
        decreases n - i,
    {
        proof {
            assert(lines.deep_view()[i as int] =~= lines@[i as int]@);
            let pre = lines.deep_view().subrange(0, i as int);
            let ext = lines.deep_view().subrange(0, i as int + 1);
            assert(ext.drop_last() =~= pre);
            assert(ext.last() == lines.deep_view()[i as int]);
        }
        match parse_positive_decimal(lines[i].as_slice()) {
            Some(b) => {
                let even = b.is_even();
                let parity = if even {
                    Parity::Even
                } else {
                    Parity::Odd
                };
                if even {
                    rec.even_count = rec.even_count + 1;
                } else {
                    rec.odd_count = rec.odd_count + 1;
                }
                rec.stopping_time = i + 1;
                if rec.max_value.lt(&b) {
                    rec.max_value = b.dup();
                    rec.max_position = i + 1;
                }
                outcomes.push(Some((b, parity)));
            },
            None => {
                outcomes.push(None);
            },
        }
        i = i + 1;
    }
    proof {
        assert(lines.deep_view().subrange(0, n as int) =~= lines.deep_view());
    }
    CollectReport { record: rec, outcomes }
}

/// The lines of the canonical numerals of `vals`, the form in which the
/// generator's output is persisted.
pub open spec fn decimal_lines(vals: Seq<nat>) -> Seq<Seq<u8>> {
    vals.map(|i: int, v: nat| dec_rep(v))
}

/// Round trip: collecting the persisted numerals of any sequence of
/// positive values (as the generator emits them) counts every line, so the
/// stopping time equals the sequence's length and the parity counters sum
/// to it.
pub proof fn lemma_round_trip(vals: Seq<nat>)
    requires
        forall|i: int| 0 <= i < vals.len() ==> #[trigger] vals[i] >= 1,
    ensures
        stats_fold(decimal_lines(vals)).stopping_time == vals.len(),
        stats_fold(decimal_lines(vals)).even_count + stats_fold(decimal_lines(vals)).odd_count
            == vals.len(),
    decreases vals.len(),
{
    if vals.len() > 0 {
        let pre = vals.drop_last();
        lemma_round_trip(pre);
        let lines = decimal_lines(vals);
        assert(lines.drop_last() =~= decimal_lines(pre));
        let v = vals.last();
        assert(v >= 1);
        lemma_dec_rep_digits(v);
        lemma_dec_rep_value(v);
        lemma_trim_digits_identity(dec_rep(v));
        assert(positive_decimal_value(dec_rep(v)) == Some(v));
        assert(lines.last() == dec_rep(v));
        assert(stats_fold(lines) == stats_step(stats_fold(decimal_lines(pre)), lines.len() as nat, dec_rep(v)));
    } else {
        assert(decimal_lines(vals) =~= Seq::<Seq<u8>>::empty());
    }
}

} // verus!
