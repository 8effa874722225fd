//! Aggregation engine: a table of accumulators keyed by station name.
//!
//! The table owns one `Station` per distinct name, in first-sight order.
//! Each input line `<name>;<temperature>` is split at its first separator;
//! the reading is folded into the matching accumulator, or a fresh one is
//! inserted on first sight.  A line without a separator is skipped.  At end
//! of input the table renders the report
//! `{<name>=<min>/<mean>/<max>, ...}`.

use crate::codec::parse_int;
use crate::codec::parse_scaled;
use crate::codec::pmag;
use crate::codec::push_bytes;
use crate::codec::MAG_CAP;
use crate::codec::READING_BOUND;
use crate::station::empty_station;
use crate::station::spec_fold;
use crate::station::summary_seq;
use crate::station::Station;
use vstd::prelude::*;
use vstd::arithmetic::mul::lemma_mul_inequality;
use vstd::slice::slice_subrange;
use vstd::slice::slice_to_vec;

verus! {

/// What the engine did with one input line.
#[derive(Clone, Copy, Debug, PartialEq, Eq, Structural)]
pub enum LineOutcome {
    /// The line had a field separator; its reading was folded in.
    Folded,
    /// The line had no field separator; it was ignored.
    Skipped,
    /// Folding the reading would overflow an accumulator; nothing changed.
    Overflow,
}

struct Entry {
    name: Vec<u8>,
    station: Station,
}

/// The station table: accumulators keyed by name, in first-sight order.
pub struct StationTable {
    entries: Vec<Entry>,
}

impl View for StationTable {
    type V = Seq<(Seq<u8>, Station)>;

    closed spec fn view(&self) -> Seq<(Seq<u8>, Station)> {
        self.entries@.map(|i: int, e: Entry| (e.name@, e.station))
    }
}

/// Whether some entry of `t` carries the name `name`.
pub open spec fn contains_name(t: Seq<(Seq<u8>, Station)>, name: Seq<u8>) -> bool {
    exists|i: int| 0 <= i < t.len() && t[i].0 == name
}

/// Well-formedness of a table: names are distinct, and every accumulator is
/// well formed and holds at least one reading.
pub open spec fn table_wf(t: Seq<(Seq<u8>, Station)>) -> bool {
    &&& forall|i: int, j: int| 0 <= i < j < t.len() ==> t[i].0 != t[j].0
    &&& forall|i: int| 0 <= i < t.len() ==> (#[trigger] t[i].1).wf() && t[i].1.count >= 1
}

/// Whether folding the reading `v` into `s` stays within the machine
/// integers.
pub open spec fn fold_fits(s: Station, v: i64) -> bool {
    &&& i64::MIN <= s.sum + v <= i64::MAX
    &&& s.count < i64::MAX
}

/// Total number of readings folded into the table: the sum of all counts.
pub open spec fn total_count(t: Seq<(Seq<u8>, Station)>) -> int
    decreases t.len(),
{
    if t.len() == 0 {
        0
    } else {
        total_count(t.drop_last()) + t.last().1.count
    }
}

/// The effect of offering the reading `v` under `name` to the table state
/// `t`, with `post` the state afterwards and `folded` whether it was taken:
/// an unseen name appends a fresh accumulator seeded with the reading; a
/// known name folds in place when the fold fits and changes nothing when it
/// does not.
pub open spec fn fold_effect(
    t: Seq<(Seq<u8>, Station)>,
    name: Seq<u8>,
    v: i64,
    post: Seq<(Seq<u8>, Station)>,
    folded: bool,
) -> bool {
    if !contains_name(t, name) {
        folded && post == t.push((name, spec_fold(empty_station(), v)))
    } else {
        exists|i: int|
            #![auto]
            {
                &&& 0 <= i < t.len()
                &&& t[i].0 == name
                &&& if fold_fits(t[i].1, v) {
                    folded && post == t.update(i, (name, spec_fold(t[i].1, v)))
                } else {
                    !folded && post == t
                }
            }
    }
}

proof fn lemma_total_count_push(t: Seq<(Seq<u8>, Station)>, e: (Seq<u8>, Station))
    ensures
        total_count(t.push(e)) == total_count(t) + e.1.count,
{
    assert(t.push(e).drop_last() =~= t);
    assert(t.push(e).last() == e);
}

proof fn lemma_total_count_update(t: Seq<(Seq<u8>, Station)>, i: int, e: (Seq<u8>, Station))
    requires
        0 <= i < t.len(),
    ensures
        total_count(t.update(i, e)) == total_count(t) - t[i].1.count + e.1.count,
    decreases t.len(),
{
    if i == t.len() - 1 {
        assert(t.update(i, e).drop_last() =~= t.drop_last());
        assert(t.update(i, e).last() == e);
    } else {
        assert(t.update(i, e).drop_last() =~= t.drop_last().update(i, e));
        assert(t.update(i, e).last() == t.last());
        lemma_total_count_update(t.drop_last(), i, e);
    }
}

/// Byte-for-byte equality of two slices.
fn bytes_eq(a: &[u8], b: &[u8]) -> (r: bool)
    ensures
        r == (a@ == b@),
{
    if a.len() != b.len() {
        return false;
    }
    let n = a.len();
    let mut i: usize = 0;
    while i < n
        invariant
            0 <= i <= n,
            n == a@.len() == b@.len(),
            forall|j: int| 0 <= j < i ==> a@[j] == b@[j],
        decreases n - i,
    {
        if a[i] != b[i] {
            return false;
        }
        i += 1;
    }
    proof {
        assert(a@ =~= b@);
    }
    true
}

impl StationTable {
    /// Creates the empty table.
    pub fn new() -> (t: Self)
        ensures
            t@.len() == 0,
            t.wf(),
    {
        StationTable { entries: Vec::new() }
    }

    /// Well-formedness of the table.
    pub open spec fn wf(&self) -> bool {
        table_wf(self@)
    }

    /// Index of the entry carrying `name`, if any.
    fn find(&self, name: &[u8]) -> (r: Option<usize>)
        ensures
            match r {
                Some(i) => i < self@.len() && self@[i as int].0 == name@,
                None => !contains_name(self@, name@),
            },
    {
        let n = self.entries.len();
        let mut i: usize = 0;
        while i < n
            invariant
                0 <= i <= n == self.entries@.len(),
                self@.len() == self.entries@.len(),
                forall|j: int| 0 <= j < i ==> self@[j].0 != name@,
                forall|j: int|
                    0 <= j < self.entries@.len() ==> self@[j] == (
                    self.entries@[j].name@,
                    self.entries@[j].station,
                ),
            decreases n - i,
        {
            if bytes_eq(self.entries[i].name.as_slice(), name) {
                return Some(i);
            }
            i += 1;
        }
        None
    }

    /// Folds the reading `value` into the accumulator for `name`, inserting
    /// a fresh accumulator on first sight.  Returns whether the reading was
    /// taken; it is refused only when the fold would overflow, and then the
    /// table is unchanged.
    pub fn fold_reading(&mut self, name: &[u8], value: i64) -> (folded: bool)
        requires
            old(self).wf(),
            -READING_BOUND <= value <= READING_BOUND,
        ensures
            final(self).wf(),
            fold_effect(old(self)@, name@, value, final(self)@, folded),
            folded ==> total_count(final(self)@) == total_count(old(self)@) + 1,
            !folded ==> final(self)@ == old(self)@,
    {
        let ghost t0 = self@;
        match self.find(name) {
            Some(i) => {
                let s = self.entries[i].station;
                proof {
                    assert(t0[i as int] == (self.entries@[i as int].name@, s));
                }
                let fits_sum = if value >= 0 {
                    s.sum <= i64::MAX - value
                } else {
                    s.sum >= i64::MIN - value
                };
                if fits_sum && s.count < i64::MAX {
                    proof {
                        assert(t0[i as int].1.wf());
                        assert(s == t0[i as int].1);
                    }
                    self.entries[i].station.add(value);
                    proof {
                        assert(self@ =~= t0.update(i as int, (name@, spec_fold(s, value))));
                        lemma_total_count_update(t0, i as int, (name@, spec_fold(s, value)));
                        assert(contains_name(t0, name@));
                        assert(fold_effect(t0, name@, value, self@, true));
                    }
                    true
                } else {
                    proof {
                        assert(!fold_fits(s, value));
                        assert(contains_name(t0, name@));
                        assert(fold_effect(t0, name@, value, self@, false));
                    }
                    false
                }
            },
            None => {
                let station = Station::new(value);
                let entry = Entry { name: slice_to_vec(name), station };
                self.entries.push(entry);
                proof {
                    assert(self@ =~= t0.push((name@, spec_fold(empty_station(), value))));
                    lemma_total_count_push(t0, (name@, spec_fold(empty_station(), value)));
                }
                true
            },
        }
    }

    /// Offers one input line to the engine.  The line is split at its first
    /// separator: the bytes before it name the station, the bytes after it
    /// are parsed as the reading.  A line without a separator is skipped.
    pub fn fold_line(&mut self, line: &[u8]) -> (outcome: LineOutcome)
        requires
            old(self).wf(),
        ensures
            final(self).wf(),
            !has_sep(line@) ==> outcome == LineOutcome::Skipped && final(self)@ == old(self)@,
            has_sep(line@) ==> outcome != LineOutcome::Skipped,
            forall|k: int|
                sep_at(line@, k) && pmag(line@.subrange(k + 1, line@.len() as int)) <= MAG_CAP
                    ==> fold_effect(
                    old(self)@,
                    line@.subrange(0, k),
                    parse_scaled(line@.subrange(k + 1, line@.len() as int)) as i64,
                    final(self)@,
                    outcome == LineOutcome::Folded,
                ),
            outcome == LineOutcome::Folded ==> total_count(final(self)@) == total_count(old(self)@)
                + 1,
            outcome != LineOutcome::Folded ==> final(self)@ == old(self)@,
    {
        let n = line.len();
        let mut k: usize = 0;
        while k < n && line[k] != 59
            invariant
                0 <= k <= n == line@.len(),
                forall|j: int| 0 <= j < k ==> line@[j] != 59,
            decreases n - k,
        {
            k += 1;
        }
        if k == n {
            proof {
                assert(!has_sep(line@));
            }
            return LineOutcome::Skipped;
        }
        proof {
            assert(sep_at(line@, k as int));
            assert(forall|k2: int| sep_at(line@, k2) ==> k2 == k as int);
        }
        let name = slice_subrange(line, 0, k);
        let rest = slice_subrange(line, k + 1, n);
        let value = parse_int(rest);
        let folded = self.fold_reading(name, value);
        if folded {
            LineOutcome::Folded
        } else {
            LineOutcome::Overflow
        }
    }

    /// Renders the report: `{`, then `<name>=<min>/<mean>/<max>, ` for every
    /// entry in first-sight order, then `}`.
    pub fn report(&self) -> (r: Vec<u8>)
        requires
            self.wf(),
        ensures
            r@ == report_bytes(self@),
    {
        let n = self.entries.len();
        let mut out: Vec<u8> = Vec::new();
        out.push(123);
        let mut i: usize = 0;
        while i < n
            invariant
                0 <= i <= n == self.entries@.len(),
                self@.len() == self.entries@.len(),
                self.wf(),
                out@ == seq![123u8] + entries_bytes(self@.take(i as int)),
                forall|j: int|
                    0 <= j < self.entries@.len() ==> self@[j] == (
                    self.entries@[j].name@,
                    self.entries@[j].station,
                ),
            decreases n - i,
        {
            proof {
                assert(self@[i as int].1.wf() && self@[i as int].1.count >= 1);
            }
            let e = &self.entries[i];
            push_bytes(&mut out, e.name.as_slice());
            out.push(61);
            let mid = e.station.summary_bytes();
            push_bytes(&mut out, mid.as_slice());
            out.push(44);
            out.push(32);
            proof {
                assert(self@.take(i + 1).drop_last() =~= self@.take(i as int));
                assert(self@.take(i + 1).last() == self@[i as int]);
                assert(out@ =~= seq![123u8] + entries_bytes(self@.take(i + 1)));
            }
            i += 1;
        }
        out.push(125);
        proof {
            assert(self@.take(n as int) =~= self@);
            assert(out@ =~= report_bytes(self@));
        }
        out
    }
}

/// `k` is the position of the first field separator of `l`.
pub open spec fn sep_at(l: Seq<u8>, k: int) -> bool {
    &&& 0 <= k < l.len()
    &&& l[k] == 59
    &&& forall|j: int| 0 <= j < k ==> l[j] != 59
}

/// Whether `l` carries a field separator at all.
pub open spec fn has_sep(l: Seq<u8>) -> bool {
    exists|k: int| sep_at(l, k)
}

/// The rendered form of one table entry: `<name>=<min>/<mean>/<max>, `.
pub open spec fn entry_bytes(e: (Seq<u8>, Station)) -> Seq<u8> {
    e.0 + seq![61u8] + summary_seq(e.1) + seq![44u8, 32u8]
}

/// The rendered forms of all entries of `t`, in table order.
pub open spec fn entries_bytes(t: Seq<(Seq<u8>, Station)>) -> Seq<u8>
    decreases t.len(),
{
    if t.len() == 0 {
        Seq::empty()
    } else {
        entries_bytes(t.drop_last()) + entry_bytes(t.last())
    }
}

/// The full report for the table state `t`.
pub open spec fn report_bytes(t: Seq<(Seq<u8>, Station)>) -> Seq<u8> {
    seq![123u8] + entries_bytes(t) + seq![125u8]
}

/// Index of the first entry of `t` carrying `name`, or `-1` when there is
/// none.
pub open spec fn find_name(t: Seq<(Seq<u8>, Station)>, name: Seq<u8>) -> int
    decreases t.len(),
{
    if t.len() == 0 {
        -1
    } else {
        let r = find_name(t.drop_last(), name);
        if r >= 0 {
            r
        } else if t.last().0 == name {
            t.len() - 1
        } else {
            -1
        }
    }
}

proof fn lemma_find_name_spec(t: Seq<(Seq<u8>, Station)>, name: Seq<u8>)
    ensures
        find_name(t, name) >= 0 <==> contains_name(t, name),
        find_name(t, name) >= 0 ==> find_name(t, name) < t.len() && t[find_name(t, name)].0
            == name,
    decreases t.len(),
{
    if t.len() > 0 {
        lemma_find_name_spec(t.drop_last(), name);
        if contains_name(t, name) && !contains_name(t.drop_last(), name) {
            let w = choose|i: int| 0 <= i < t.len() && t[i].0 == name;
            if w < t.len() - 1 {
                assert(t.drop_last()[w] == t[w]);
                assert(contains_name(t.drop_last(), name));
            }
            assert(w == t.len() - 1);
        }
    }
}

/// The position of the first field separator of `l`.
pub open spec fn sep_pos(l: Seq<u8>) -> int {
    choose|k: int| sep_at(l, k)
}

/// The table state after one reading `v` under `name` is offered to `t`:
/// lookup-or-insert, except that a fold that would overflow changes nothing.
pub open spec fn table_after_reading(
    t: Seq<(Seq<u8>, Station)>,
    name: Seq<u8>,
    v: i64,
) -> Seq<(Seq<u8>, Station)> {
    let i = find_name(t, name);
    if i < 0 {
        t.push((name, spec_fold(empty_station(), v)))
    } else if fold_fits(t[i].1, v) {
        t.update(i, (name, spec_fold(t[i].1, v)))
    } else {
        t
    }
}

/// The table state after one input line is offered to `t`: a line without a
/// separator changes nothing, any other line is split at its first separator
/// and its reading folded.
pub open spec fn table_after_line(t: Seq<(Seq<u8>, Station)>, l: Seq<u8>) -> Seq<
    (Seq<u8>, Station),
> {
    if !has_sep(l) {
        t
    } else {
        let k = sep_pos(l);
        table_after_reading(t, l.subrange(0, k), parse_scaled(l.subrange(k + 1, l.len() as int)) as i64)
    }
}

/// The table state after a whole input is offered to `t`, line by line.
pub open spec fn table_after_lines(t: Seq<(Seq<u8>, Station)>, ls: Seq<Seq<u8>>) -> Seq<
    (Seq<u8>, Station),
>
    decreases ls.len(),
{
    if ls.len() == 0 {
        t
    } else {
        table_after_line(table_after_lines(t, ls.drop_last()), ls.last())
    }
}

/// In a well-formed table, `fold_effect` determines the new state: it is
/// `table_after_reading`.
proof fn lemma_fold_effect_deterministic(
    t: Seq<(Seq<u8>, Station)>,
    name: Seq<u8>,
    v: i64,
    post: Seq<(Seq<u8>, Station)>,
    folded: bool,
)
    requires
        table_wf(t),
        fold_effect(t, name, v, post, folded),
    ensures
        post == table_after_reading(t, name, v),
{
    lemma_find_name_spec(t, name);
    if contains_name(t, name) {
        let i0 = choose|i0: int|
            #![auto]
            {
                &&& 0 <= i0 < t.len()
                &&& t[i0].0 == name
                &&& if fold_fits(t[i0].1, v) {
                    folded && post == t.update(i0, (name, spec_fold(t[i0].1, v)))
                } else {
                    !folded && post == t
                }
            };
        lemma_one_accumulator_per_name(t, i0, find_name(t, name));
    }
}

/// Largest number of input lines one aggregation run admits; it keeps every
/// sum of surface-range readings within `i64`.
pub const MAX_LINES: u64 = 92_000_000_000_000;

/// Every accumulator of `t` has both extrema within `b`.
pub open spec fn table_bounded(t: Seq<(Seq<u8>, Station)>, b: int) -> bool {
    forall|i: int| 0 <= i < t.len() ==> -b <= (#[trigger] t[i].1).min && t[i].1.max <= b
}

/// A line the input contract admits: if it carries a separator, the
/// temperature field denotes at most 99.9 degrees in magnitude.
pub open spec fn line_ok(l: Seq<u8>) -> bool {
    forall|k: int| sep_at(l, k) ==> pmag(l.subrange(k + 1, l.len() as int)) <= 999
}

/// Number of lines among `ls` that carry a field separator.
pub open spec fn sep_count(ls: Seq<Seq<u8>>) -> int
    decreases ls.len(),
{
    if ls.len() == 0 {
        0
    } else {
        sep_count(ls.drop_last()) + if has_sep(ls.last()) {
            1int
        } else {
            0int
        }
    }
}

proof fn lemma_total_count_nonneg(t: Seq<(Seq<u8>, Station)>)
    requires
        forall|i: int| 0 <= i < t.len() ==> (#[trigger] t[i].1).count >= 0,
    ensures
        total_count(t) >= 0,
    decreases t.len(),
{
    if t.len() > 0 {
        lemma_total_count_nonneg(t.drop_last());
    }
}

proof fn lemma_count_le_total(t: Seq<(Seq<u8>, Station)>, j: int)
    requires
        forall|i: int| 0 <= i < t.len() ==> (#[trigger] t[i].1).count >= 0,
        0 <= j < t.len(),
    ensures
        t[j].1.count <= total_count(t),
    decreases t.len(),
{
    if j == t.len() - 1 {
        lemma_total_count_nonneg(t.drop_last());
    } else {
        lemma_count_le_total(t.drop_last(), j);
    }
}

/// Lookup-or-insert yields exactly one accumulator per distinct name: in a
/// well-formed table, two entries that carry the same name are the same
/// entry.
pub proof fn lemma_one_accumulator_per_name(t: Seq<(Seq<u8>, Station)>, i: int, j: int)
    requires
        table_wf(t),
        0 <= i < t.len(),
        0 <= j < t.len(),
        t[i].0 == t[j].0,
    ensures
        i == j,
{
    if i < j {
        assert(t[i].0 != t[j].0);
    } else if j < i {
        assert(t[j].0 != t[i].0);
    }
}

impl StationTable {
    /// Aggregates a whole input into an empty table, folding every line in
    /// order.  Returns the number of readings folded, which equals the
    /// number of lines that carry a separator; the rest are skipped.
    pub fn process_lines(&mut self, lines: &Vec<Vec<u8>>) -> (folds: usize)
        requires
            old(self).wf(),
            old(self)@.len() == 0,
            lines@.len() <= MAX_LINES,
            forall|i: int| 0 <= i < lines@.len() ==> line_ok((#[trigger] lines@[i])@),
        ensures
            final(self).wf(),
            final(self)@ == table_after_lines(
                old(self)@,
                lines@.map(|i: int, l: Vec<u8>| l@),
            ),
            folds == sep_count(lines@.map(|i: int, l: Vec<u8>| l@)),
            total_count(final(self)@) == folds,
    {
        let ghost ls = lines@.map(|i: int, l: Vec<u8>| l@);
        let ghost t_init = self@;
        let n = lines.len();
        let mut folds: usize = 0;
        let mut i: usize = 0;
        while i < n
            invariant
                0 <= i <= n == lines@.len(),
                ls == lines@.map(|i: int, l: Vec<u8>| l@),
                lines@.len() <= MAX_LINES,
                forall|j: int| 0 <= j < lines@.len() ==> line_ok((#[trigger] lines@[j])@),
                self.wf(),
                table_bounded(self@, 99900),
                t_init == old(self)@,
                self@ == table_after_lines(t_init, ls.take(i as int)),
                folds == sep_count(ls.take(i as int)),
                total_count(self@) == folds,
                folds <= i,
            decreases n - i,
        {
            let ghost t0 = self@;
            let line = &lines[i];
            proof {
                assert(ls[i as int] == line@);
            }
            let outcome = self.fold_line(line.as_slice());
            proof {
                lemma_fold_line_outcome(t0, line@, self@, outcome, folds as int);
                assert(ls.take(i + 1).drop_last() =~= ls.take(i as int));
                assert(ls.take(i + 1).last() == ls[i as int]);
                assert(self@ == table_after_lines(t_init, ls.take(i + 1)));
            }
            if matches!(outcome, LineOutcome::Folded) {
                folds = folds + 1;
            }
            i += 1;
        }
        proof {
            assert(ls.take(n as int) =~= ls);
        }
        folds
    }
}

/// After `fold_line` on a bounded, moderately filled table and a line the
/// input contract admits, the fold fit: the line was folded exactly when it
/// carries a separator, and the table stays bounded.
proof fn lemma_fold_line_outcome(
    t0: Seq<(Seq<u8>, Station)>,
    l: Seq<u8>,
    t1: Seq<(Seq<u8>, Station)>,
    outcome: LineOutcome,
    filled: int,
)
    requires
        table_wf(t0),
        table_bounded(t0, 99900),
        line_ok(l),
        total_count(t0) == filled,
        0 <= filled < MAX_LINES,
        !has_sep(l) ==> outcome == LineOutcome::Skipped && t1 == t0,
        has_sep(l) ==> outcome != LineOutcome::Skipped,
        forall|k: int|
            sep_at(l, k) && pmag(l.subrange(k + 1, l.len() as int)) <= MAG_CAP ==> fold_effect(
                t0,
                l.subrange(0, k),
                parse_scaled(l.subrange(k + 1, l.len() as int)) as i64,
                t1,
                outcome == LineOutcome::Folded,
            ),
    ensures
        outcome == LineOutcome::Folded <==> has_sep(l),
        table_bounded(t1, 99900),
        t1 == table_after_line(t0, l),
{
    if !has_sep(l) {
        return ;
    }
    let k = sep_pos(l);
    assert(sep_at(l, k));
    let rest = l.subrange(k + 1, l.len() as int);
    assert(pmag(rest) <= 999);
    let v = parse_scaled(rest) as i64;
    assert(-99900 <= parse_scaled(rest) <= 99900);
    let name = l.subrange(0, k);
    assert(fold_effect(t0, name, v, t1, outcome == LineOutcome::Folded));
    lemma_fold_effect_deterministic(t0, name, v, t1, outcome == LineOutcome::Folded);
    if !contains_name(t0, name) {
        // a fresh accumulator is seeded with the reading
        let e = (name, spec_fold(empty_station(), v));
        assert(t1 == t0.push(e));
        assert(forall|j: int| 0 <= j < t0.len() ==> t1[j] == t0[j]);
        assert(t1[t0.len() as int].1.min == v && t1[t0.len() as int].1.max == v);
    } else {
        let i0 = choose|i0: int|
            #![auto]
            {
                &&& 0 <= i0 < t0.len()
                &&& t0[i0].0 == name
                &&& if fold_fits(t0[i0].1, v) {
                    (outcome == LineOutcome::Folded) && t1 == t0.update(
                        i0,
                        (name, spec_fold(t0[i0].1, v)),
                    )
                } else {
                    (outcome != LineOutcome::Folded) && t1 == t0
                }
            };
        let s = t0[i0].1;
        assert(s.wf() && s.count >= 1);
        lemma_count_le_total(t0, i0);
        assert(s.count <= filled);
        assert(s.count * s.min <= s.sum <= s.count * s.max);
        lemma_mul_inequality(s.max as int, 99900, s.count as int);
        lemma_mul_inequality(-99900, s.min as int, s.count as int);
        assert(s.count * (s.max as int) == (s.max as int) * (s.count as int)) by (nonlinear_arith);
        assert(s.count * (s.min as int) == (s.min as int) * (s.count as int)) by (nonlinear_arith);
        assert((s.count as int) * 99900 <= filled * 99900) by (nonlinear_arith)
            requires
                s.count <= filled && s.count >= 0,
        ;
        assert(filled * 99900 <= (MAX_LINES - 1) * 99900) by (nonlinear_arith)
            requires
                filled < MAX_LINES,
        ;
        assert(fold_fits(s, v));
        assert(outcome == LineOutcome::Folded);
        assert(t1 == t0.update(i0, (name, spec_fold(s, v))));
        assert(forall|j: int| 0 <= j < t1.len() && j != i0 ==> t1[j] == t0[j]);
        assert(t1[i0].1.min >= -99900 && t1[i0].1.max <= 99900);
    }
}

} // verus!
