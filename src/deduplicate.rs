//! Deduplication of key runs: six policies over one uniform contract.
//!
//! A handler is fed `(row, key, side)` entries in merge order and appends the
//! rows it emits to an output list. A run is a maximal stretch of consecutive
//! entries whose keys are byte-equal; each policy collapses a run on its own.
use core::cmp::Ordering;
use vstd::prelude::*;

use crate::record::{
    bytes_eq, clone_bytes, clone_row, compare_rows, lemma_row_lt_asymmetric, lemma_row_lt_irreflexive,
    lemma_row_lt_total, lemma_row_lt_transitive, row_lt, row_view, rows_view,
};
use crate::key::{lemma_parse_i64_range, parse_i64, to_number};
use crate::{DeduplicateStrategy, Side};

verus! {

/// The view of an entry: the row, its key and its side.
pub type Entry = (Seq<Seq<u8>>, Seq<u8>, Side);

pub open spec fn entry_view(e: (Vec<Vec<u8>>, Vec<u8>, Side)) -> Entry {
    (row_view(e.0), e.1@, e.2)
}

pub open spec fn entries_view(es: Vec<(Vec<Vec<u8>>, Vec<u8>, Side)>) -> Seq<Entry> {
    es@.map_values(|e: (Vec<Vec<u8>>, Vec<u8>, Side)| entry_view(e))
}

/// The rows of a list of entries.
pub open spec fn entry_rows(run: Seq<Entry>) -> Seq<Seq<Seq<u8>>> {
    run.map_values(|e: Entry| e.0)
}

/// The rows of the entries that came from `side`, in arrival order.
pub open spec fn side_rows(run: Seq<Entry>, side: Side) -> Seq<Seq<Seq<u8>>>
    decreases run.len(),
{
    if run.len() == 0 {
        Seq::empty()
    } else {
        let p = side_rows(run.drop_last(), side);
        if run.last().2 == side {
            p.push(run.last().0)
        } else {
            p
        }
    }
}

/// `x` overwritten field by field with the non-empty fields of `y`.
pub open spec fn compose(x: Seq<Seq<u8>>, y: Seq<Seq<u8>>) -> Seq<Seq<u8>> {
    Seq::new(x.len(), |i: int| if i < y.len() && y[i].len() > 0 { y[i] } else { x[i] })
}

/// The right-biased field-wise merge of a non-empty list of rows.
pub open spec fn reduce_rows(s: Seq<Seq<Seq<u8>>>) -> Seq<Seq<u8>>
    decreases s.len(),
{
    if s.len() <= 1 {
        if s.len() == 1 {
            s[0]
        } else {
            Seq::empty()
        }
    } else {
        compose(reduce_rows(s.drop_last()), s.last())
    }
}

/// `s` with `r` put in its place by `row_lt`, unless `r` is already there.
pub open spec fn insert_distinct(s: Seq<Seq<Seq<u8>>>, r: Seq<Seq<u8>>) -> Seq<Seq<Seq<u8>>>
    decreases s.len(),
{
    if s.len() == 0 {
        seq![r]
    } else if row_lt(r, s[0]) {
        seq![r] + s
    } else if r == s[0] {
        s
    } else {
        seq![s[0]] + insert_distinct(s.drop_first(), r)
    }
}

/// The distinct rows of `rows`, in increasing order.
pub open spec fn sort_distinct(rows: Seq<Seq<Seq<u8>>>) -> Seq<Seq<Seq<u8>>>
    decreases rows.len(),
{
    if rows.len() == 0 {
        Seq::empty()
    } else {
        insert_distinct(sort_distinct(rows.drop_last()), rows.last())
    }
}

/// `s` with `e` placed after every entry whose row does not exceed `e`'s.
pub open spec fn insert_stable(s: Seq<Entry>, e: Entry) -> Seq<Entry>
    decreases s.len(),
{
    if s.len() == 0 {
        seq![e]
    } else if row_lt(e.0, s.last().0) {
        insert_stable(s.drop_last(), e).push(s.last())
    } else {
        s.push(e)
    }
}

/// The entries stably sorted by row.
pub open spec fn sort_entries(run: Seq<Entry>) -> Seq<Entry>
    decreases run.len(),
{
    if run.len() == 0 {
        Seq::empty()
    } else {
        insert_stable(sort_entries(run.drop_last()), run.last())
    }
}

/// `s` without the entries equal to the one just before them.
pub open spec fn dedup_adjacent(s: Seq<Entry>) -> Seq<Entry>
    decreases s.len(),
{
    if s.len() <= 1 {
        s
    } else {
        let d = dedup_adjacent(s.drop_last());
        if s.last() == s[s.len() - 2] {
            d
        } else {
            d.push(s.last())
        }
    }
}

/// A run sorted by row, with repeated entries (same row, key and side) dropped.
pub open spec fn sorted_unique_entries(run: Seq<Entry>) -> Seq<Entry> {
    dedup_adjacent(sort_entries(run))
}

/// Every composed pair of `X × Y`, `X`-major.
pub open spec fn cross_pairs(x: Seq<Seq<Seq<u8>>>, y: Seq<Seq<Seq<u8>>>) -> Seq<Seq<Seq<u8>>>
    decreases x.len(),
{
    if x.len() == 0 {
        Seq::empty()
    } else {
        cross_pairs(x.drop_last(), y) + y.map_values(|r: Seq<Seq<u8>>| compose(x.last(), r))
    }
}

/// Cross-join of a run's left rows `x` and right rows `y`.
pub open spec fn cross_rows(x: Seq<Seq<Seq<u8>>>, y: Seq<Seq<Seq<u8>>>) -> Seq<Seq<Seq<u8>>> {
    if x.len() > 0 && y.len() > 0 {
        cross_pairs(x, y)
    } else if y.len() > 0 {
        y
    } else {
        x
    }
}

/// What a policy emits for one closed run.
pub open spec fn collapse(policy: DeduplicateStrategy, run: Seq<Entry>) -> Seq<Seq<Seq<u8>>> {
    match policy {
        DeduplicateStrategy::KeepAll => entry_rows(run),
        DeduplicateStrategy::KeepFirst => if run.len() == 1 {
            seq![run[0].0]
        } else {
            Seq::empty()
        },
        DeduplicateStrategy::RemoveSimilar => sort_distinct(entry_rows(run)),
        DeduplicateStrategy::Reduce => if run.len() > 0 {
            seq![reduce_rows(entry_rows(run))]
        } else {
            Seq::empty()
        },
        DeduplicateStrategy::CrossJoin => cross_rows(
            side_rows(run, Side::Left),
            side_rows(run, Side::Right),
        ),
        DeduplicateStrategy::CrossJoinAndRemoveSimilar => cross_rows(
            side_rows(sorted_unique_entries(run), Side::Left),
            side_rows(sorted_unique_entries(run), Side::Right),
        ),
    }
}

/// Two keys belong to one run: byte-equal or, when keys compare as numbers,
/// both signed 64-bit integers of the same value.
pub open spec fn same_key(a: Seq<u8>, b: Seq<u8>, numeric: bool) -> bool {
    a == b || (numeric && parse_i64(a) is Some && parse_i64(a) == parse_i64(b))
}

/// Tells whether two keys belong to one run.
pub fn keys_match(a: &Vec<u8>, b: &Vec<u8>, numeric: bool) -> (r: bool)
    ensures
        r == same_key(a@, b@, numeric),
{
    if bytes_eq(a, b) {
        return true;
    }
    if !numeric {
        return false;
    }
    proof {
        lemma_parse_i64_range(a@);
        lemma_parse_i64_range(b@);
    }
    match (to_number(a), to_number(b)) {
        (Ok(x), Ok(y)) => x == y,
        _ => false,
    }
}

/// One entry arrives: the rows emitted now, and the open run afterwards.
/// Keep-all emits at once; the others close the open run when the key changes.
pub open spec fn add_step(policy: DeduplicateStrategy, numeric: bool, pending: Seq<Entry>, e: Entry) -> (
    Seq<Seq<Seq<u8>>>,
    Seq<Entry>,
) {
    if policy == DeduplicateStrategy::KeepAll {
        (seq![e.0], Seq::empty())
    } else if pending.len() > 0 && !same_key(pending.last().1, e.1, numeric) {
        (collapse(policy, pending), seq![e])
    } else {
        (Seq::empty(), pending.push(e))
    }
}

/// The rows emitted while `items` arrive, and the run left open.
pub open spec fn dedup_fold(policy: DeduplicateStrategy, numeric: bool, items: Seq<Entry>) -> (
    Seq<Seq<Seq<u8>>>,
    Seq<Entry>,
)
    decreases items.len(),
{
    if items.len() == 0 {
        (Seq::empty(), Seq::empty())
    } else {
        let (o, p) = dedup_fold(policy, numeric, items.drop_last());
        let (e, q) = add_step(policy, numeric, p, items.last());
        (o + e, q)
    }
}

/// Everything a handler emits for `items` followed by a flush.
pub open spec fn deduplicate(policy: DeduplicateStrategy, numeric: bool, items: Seq<Entry>) -> Seq<Seq<Seq<u8>>> {
    let (o, p) = dedup_fold(policy, numeric, items);
    o + collapse(policy, p)
}

proof fn lemma_insert_distinct_skip(s: Seq<Seq<Seq<u8>>>, r: Seq<Seq<u8>>, k: int)
    requires
        0 <= k <= s.len(),
        forall|i: int| 0 <= i < k ==> row_lt(#[trigger] s[i], r),
    ensures
        insert_distinct(s, r) == s.take(k) + insert_distinct(s.skip(k), r),
    decreases k,
{
    if k == 0 {
        assert(s.take(0) + s.skip(0) =~= s);
        assert(s.skip(0) =~= s);
        assert(s.take(0) + insert_distinct(s, r) =~= insert_distinct(s, r));
    } else {
        lemma_row_lt_asymmetric(s[0], r);
        lemma_row_lt_irreflexive(r);
        let t = s.drop_first();
        assert forall|i: int| 0 <= i < k - 1 implies row_lt(#[trigger] t[i], r) by {
            assert(t[i] == s[i + 1]);
        }
        lemma_insert_distinct_skip(t, r, k - 1);
        assert(t.skip(k - 1) =~= s.skip(k));
        assert(seq![s[0]] + (t.take(k - 1) + insert_distinct(t.skip(k - 1), r)) =~= s.take(k)
            + insert_distinct(s.skip(k), r));
    }
}

/// Puts `r` into the increasing list `s` unless it is already there.
fn insert_row_distinct(s: &mut Vec<Vec<Vec<u8>>>, r: Vec<Vec<u8>>)
    ensures
        rows_view(*final(s)) == insert_distinct(rows_view(*old(s)), row_view(r)),
{
    let ghost sv = rows_view(*s);
    let ghost rv = row_view(r);
    let mut k: usize = 0;
    let mut found = false;
    while !found && k < s.len()
        invariant
            sv == rows_view(*s),
            rv == row_view(r),
            k <= s.len(),
            found ==> k < s.len() && !row_lt(sv[k as int], rv),
            forall|i: int| 0 <= i < k ==> row_lt(#[trigger] sv[i], rv),
        decreases s.len() - k, (if found { 0int } else { 1int }),
    {
        match compare_rows(&s[k], &r) {
            Ordering::Less => {
                k += 1;
            },
            _ => {
                found = true;
            },
        }
    }
    proof {
        lemma_insert_distinct_skip(sv, rv, k as int);
    }
    let ghost t = sv.skip(k as int);
    if k == s.len() {
        assert(t =~= Seq::<Seq<Seq<u8>>>::empty());
        s.push(r);
        assert(rows_view(*s) =~= sv.take(k as int) + seq![rv]);
    } else {
        let c = compare_rows(&s[k], &r);
        assert(t[0] == sv[k as int]);
        proof {
            lemma_row_lt_total(sv[k as int], rv);
        }
        match c {
            Ordering::Equal => {
                assert(sv.take(k as int) + t =~= sv);
            },
            _ => {
                s.insert(k, r);
                assert(rows_view(*s) =~= sv.take(k as int) + (seq![rv] + t));
            },
        }
    }
}

/// `x` overwritten field by field with the non-empty fields of `y`.
fn compose_rows(x: &Vec<Vec<u8>>, y: &Vec<Vec<u8>>) -> (r: Vec<Vec<u8>>)
    ensures
        row_view(r) == compose(row_view(*x), row_view(*y)),
{
    let mut out: Vec<Vec<u8>> = Vec::new();
    let mut i: usize = 0;
    while i < x.len()
        invariant
            i <= x.len(),
            out@.len() == i,
            forall|k: int| 0 <= k < i ==> (#[trigger] out@[k])@ == compose(row_view(*x), row_view(*y))[k],
        decreases x.len() - i,
    {
        if i < y.len() && y[i].len() > 0 {
            out.push(clone_bytes(&y[i]));
        } else {
            out.push(clone_bytes(&x[i]));
        }
        i += 1;
    }
    assert(row_view(out) =~= compose(row_view(*x), row_view(*y)));
    out
}

/// Appends copies of `rows` to `out`.
fn push_all(out: &mut Vec<Vec<Vec<u8>>>, rows: &Vec<Vec<Vec<u8>>>)
    ensures
        rows_view(*final(out)) == rows_view(*old(out)) + rows_view(*rows),
{
    let ghost o = rows_view(*out);
    let mut i: usize = 0;
    while i < rows.len()
        invariant
            i <= rows.len(),
            rows_view(*out) == o + rows_view(*rows).take(i as int),
        decreases rows.len() - i,
    {
        let r = clone_row(&rows[i]);
        let ghost before = rows_view(*out);
        out.push(r);
        assert(rows_view(*out) =~= before.push(row_view(rows@[i as int])));
        assert(rows_view(*rows).take(i + 1) =~= rows_view(*rows).take(i as int).push(row_view(rows@[i as int])));
        assert(rows_view(*out) =~= o + rows_view(*rows).take(i + 1));
        i += 1;
    }
    assert(rows_view(*rows).take(rows.len() as int) =~= rows_view(*rows));
}

/// The shared contract of the deduplication handlers.
///
/// `pending` is the run that is still open; `policy` fixes how a closed run
/// collapses (see `add_step` and `collapse`).
pub trait StrategyHandler {
    spec fn policy(&self) -> DeduplicateStrategy;

    spec fn pending(&self) -> Seq<Entry>;

    /// Keys that parse as the same signed 64-bit integer share a run.
    spec fn numeric(&self) -> bool;

    spec fn wf(&self) -> bool;

    /// Takes the next entry and appends to `out` what it closes.
    fn add_row(&mut self, row: Vec<Vec<u8>>, key_value: Vec<u8>, side: Side, out: &mut Vec<Vec<Vec<u8>>>)
        requires
            old(self).wf(),
        ensures
            final(self).wf(),
            final(self).policy() == old(self).policy(),
            final(self).numeric() == old(self).numeric(),
            rows_view(*final(out)) == rows_view(*old(out)) + add_step(
                old(self).policy(),
                old(self).numeric(),
                old(self).pending(),
                (row_view(row), key_value@, side),
            ).0,
            final(self).pending() == add_step(
                old(self).policy(),
                old(self).numeric(),
                old(self).pending(),
                (row_view(row), key_value@, side),
            ).1,
    ;

    /// Closes the open run and appends what it collapses to.
    fn flush(&mut self, out: &mut Vec<Vec<Vec<u8>>>)
        requires
            old(self).wf(),
        ensures
            final(self).wf(),
            final(self).policy() == old(self).policy(),
            final(self).numeric() == old(self).numeric(),
            rows_view(*final(out)) == rows_view(*old(out)) + collapse(old(self).policy(), old(self).pending()),
            final(self).pending() == Seq::<Entry>::empty(),
    ;
}

/// Passes every row through.
pub struct KeepAllStrategyHandler {
    numeric: bool,
}

impl KeepAllStrategyHandler {
    pub fn build(numeric: bool) -> (r: Self)
        ensures
            r.wf(),
            r.pending() == Seq::<Entry>::empty(),
            r.numeric() == numeric,
    {
        KeepAllStrategyHandler { numeric }
    }
}

impl StrategyHandler for KeepAllStrategyHandler {
    open spec fn policy(&self) -> DeduplicateStrategy {
        DeduplicateStrategy::KeepAll
    }

    open spec fn pending(&self) -> Seq<Entry> {
        Seq::empty()
    }

    closed spec fn numeric(&self) -> bool {
        self.numeric
    }

    open spec fn wf(&self) -> bool {
        true
    }

    fn add_row(&mut self, row: Vec<Vec<u8>>, key_value: Vec<u8>, side: Side, out: &mut Vec<Vec<Vec<u8>>>) {
        let ghost o = rows_view(*out);
        let ghost rv = row_view(row);
        out.push(row);
        assert(rows_view(*out) =~= o + seq![rv]);
    }

    fn flush(&mut self, out: &mut Vec<Vec<Vec<u8>>>) {
        assert(rows_view(*out) =~= rows_view(*out) + entry_rows(Seq::<Entry>::empty()));
    }
}

/// Emits the rows whose key run has length one; longer runs vanish.
pub struct KeepFirstStrategyHandler {
    last_record: Option<(Vec<Vec<u8>>, Vec<u8>)>,
    duplicated: bool,
    run: Ghost<Seq<Entry>>,
    numeric: bool,
}

impl KeepFirstStrategyHandler {
    pub fn build(numeric: bool) -> (r: Self)
        ensures
            r.wf(),
            r.pending() == Seq::<Entry>::empty(),
            r.numeric() == numeric,
    {
        KeepFirstStrategyHandler { last_record: None, duplicated: false, run: Ghost(Seq::empty()), numeric }
    }
}

impl StrategyHandler for KeepFirstStrategyHandler {
    open spec fn policy(&self) -> DeduplicateStrategy {
        DeduplicateStrategy::KeepFirst
    }

    closed spec fn pending(&self) -> Seq<Entry> {
        self.run@
    }

    closed spec fn numeric(&self) -> bool {
        self.numeric
    }

    closed spec fn wf(&self) -> bool {
        match self.last_record {
            None => self.run@.len() == 0 && !self.duplicated,
            Some(lr) => {
                &&& self.run@.len() > 0
                &&& self.run@.last().0 == row_view(lr.0)
                &&& self.run@.last().1 == lr.1@
                &&& self.duplicated == (self.run@.len() > 1)
            },
        }
    }

    fn add_row(&mut self, row: Vec<Vec<u8>>, key_value: Vec<u8>, side: Side, out: &mut Vec<Vec<Vec<u8>>>) {
        let ghost e: Entry = (row_view(row), key_value@, side);
        let ghost o = rows_view(*out);
        let ghost p = self.run@;
        let prev = self.last_record.take();
        match prev {
            Some(lr) => {
                if keys_match(&lr.1, &key_value, self.numeric) {
                    self.duplicated = true;
                    assert(rows_view(*out) =~= o + Seq::<Seq<Seq<u8>>>::empty());
                } else {
                    if !self.duplicated {
                        out.push(lr.0);
                        assert(rows_view(*out) =~= o + seq![p[0].0]);
                    } else {
                        assert(rows_view(*out) =~= o + Seq::<Seq<Seq<u8>>>::empty());
                    }
                    self.duplicated = false;
                }
            },
            None => {
                assert(rows_view(*out) =~= o + Seq::<Seq<Seq<u8>>>::empty());
            },
        }
        let ghost q = add_step(DeduplicateStrategy::KeepFirst, self.numeric, p, e).1;
        self.run = Ghost(q);
        self.last_record = Some((row, key_value));
    }

    fn flush(&mut self, out: &mut Vec<Vec<Vec<u8>>>) {
        let ghost o = rows_view(*out);
        let prev = self.last_record.take();
        match prev {
            Some(lr) => {
                if !self.duplicated {
                    out.push(lr.0);
                    assert(rows_view(*out) =~= o + seq![self.run@[0].0]);
                } else {
                    assert(rows_view(*out) =~= o + Seq::<Seq<Seq<u8>>>::empty());
                }
            },
            None => {
                assert(rows_view(*out) =~= o + Seq::<Seq<Seq<u8>>>::empty());
            },
        }
        self.duplicated = false;
        self.run = Ghost(Seq::empty());
    }
}

proof fn lemma_entry_rows_push(p: Seq<Entry>, e: Entry)
    ensures
        entry_rows(p.push(e)) == entry_rows(p).push(e.0),
        entry_rows(p.push(e)).drop_last() == entry_rows(p),
{
    assert(entry_rows(p.push(e)) =~= entry_rows(p).push(e.0));
    assert(entry_rows(p.push(e)).drop_last() =~= entry_rows(p));
}

/// Merges each run into one row, later non-empty fields winning.
pub struct ReduceStrategyHandler {
    group: Option<(Vec<Vec<u8>>, Vec<u8>)>,
    run: Ghost<Seq<Entry>>,
    numeric: bool,
}

impl ReduceStrategyHandler {
    pub fn build(numeric: bool) -> (r: Self)
        ensures
            r.wf(),
            r.pending() == Seq::<Entry>::empty(),
            r.numeric() == numeric,
    {
        ReduceStrategyHandler { group: None, run: Ghost(Seq::empty()), numeric }
    }
}

impl StrategyHandler for ReduceStrategyHandler {
    open spec fn policy(&self) -> DeduplicateStrategy {
        DeduplicateStrategy::Reduce
    }

    closed spec fn pending(&self) -> Seq<Entry> {
        self.run@
    }

    closed spec fn numeric(&self) -> bool {
        self.numeric
    }

    closed spec fn wf(&self) -> bool {
        match self.group {
            None => self.run@.len() == 0,
            Some(g) => {
                &&& self.run@.len() > 0
                &&& row_view(g.0) == reduce_rows(entry_rows(self.run@))
                &&& self.run@.last().1 == g.1@
            },
        }
    }

    fn add_row(&mut self, row: Vec<Vec<u8>>, key_value: Vec<u8>, side: Side, out: &mut Vec<Vec<Vec<u8>>>) {
        let ghost e: Entry = (row_view(row), key_value@, side);
        let ghost o = rows_view(*out);
        let ghost p = self.run@;
        proof {
            lemma_entry_rows_push(p, e);
            lemma_entry_rows_push(Seq::empty(), e);
            assert(Seq::<Entry>::empty().push(e) =~= seq![e]);
        }
        let prev = self.group.take();
        match prev {
            Some(g) => {
                if keys_match(&g.1, &key_value, self.numeric) {
                    let merged = compose_rows(&g.0, &row);
                    self.group = Some((merged, key_value));
                    assert(rows_view(*out) =~= o + Seq::<Seq<Seq<u8>>>::empty());
                } else {
                    out.push(g.0);
                    assert(rows_view(*out) =~= o + seq![reduce_rows(entry_rows(p))]);
                    self.group = Some((row, key_value));
                }
            },
            None => {
                assert(rows_view(*out) =~= o + Seq::<Seq<Seq<u8>>>::empty());
                self.group = Some((row, key_value));
            },
        }
        self.run = Ghost(add_step(DeduplicateStrategy::Reduce, self.numeric, p, e).1);
    }

    fn flush(&mut self, out: &mut Vec<Vec<Vec<u8>>>) {
        let ghost o = rows_view(*out);
        let prev = self.group.take();
        match prev {
            Some(g) => {
                out.push(g.0);
                assert(rows_view(*out) =~= o + seq![reduce_rows(entry_rows(self.run@))]);
            },
            None => {
                assert(rows_view(*out) =~= o + Seq::<Seq<Seq<u8>>>::empty());
            },
        }
        self.run = Ghost(Seq::empty());
    }
}

/// Emits the distinct rows of each run in increasing order.
pub struct RemoveSimilarStrategyHandler {
    last_key: Option<Vec<u8>>,
    duplicates: Vec<Vec<Vec<u8>>>,
    run: Ghost<Seq<Entry>>,
    numeric: bool,
}

impl RemoveSimilarStrategyHandler {
    pub fn build(numeric: bool) -> (r: Self)
        ensures
            r.wf(),
            r.pending() == Seq::<Entry>::empty(),
            r.numeric() == numeric,
    {
        let r = RemoveSimilarStrategyHandler {
            last_key: None,
            duplicates: Vec::new(),
            run: Ghost(Seq::empty()),
            numeric,
        };
        assert(rows_view(r.duplicates) =~= sort_distinct(entry_rows(Seq::<Entry>::empty())));
        r
    }
}

impl StrategyHandler for RemoveSimilarStrategyHandler {
    open spec fn policy(&self) -> DeduplicateStrategy {
        DeduplicateStrategy::RemoveSimilar
    }

    closed spec fn pending(&self) -> Seq<Entry> {
        self.run@
    }

    closed spec fn numeric(&self) -> bool {
        self.numeric
    }

    closed spec fn wf(&self) -> bool {
        &&& rows_view(self.duplicates) == sort_distinct(entry_rows(self.run@))
        &&& match self.last_key {
            None => self.run@.len() == 0,
            Some(k) => self.run@.len() > 0 && self.run@.last().1 == k@,
        }
    }

    fn add_row(&mut self, row: Vec<Vec<u8>>, key_value: Vec<u8>, side: Side, out: &mut Vec<Vec<Vec<u8>>>) {
        let ghost e: Entry = (row_view(row), key_value@, side);
        let ghost o = rows_view(*out);
        let ghost p = self.run@;
        let ghost q = add_step(DeduplicateStrategy::RemoveSimilar, self.numeric, p, e).1;
        proof {
            lemma_entry_rows_push(p, e);
            lemma_entry_rows_push(Seq::empty(), e);
            assert(Seq::<Entry>::empty().push(e) =~= seq![e]);
            assert(entry_rows(Seq::<Entry>::empty()) =~= Seq::<Seq<Seq<u8>>>::empty());
        }
        let close = match &self.last_key {
            Some(k) => !keys_match(k, &key_value, self.numeric),
            None => false,
        };
        if close {
            push_all(out, &self.duplicates);
            self.duplicates = Vec::new();
            assert(q.drop_last() =~= Seq::<Entry>::empty());
            assert(rows_view(self.duplicates) =~= Seq::<Seq<Seq<u8>>>::empty());
        } else {
            assert(rows_view(*out) =~= o + Seq::<Seq<Seq<u8>>>::empty());
            assert(q.drop_last() =~= p);
        }
        proof {
            assert(q =~= q.drop_last().push(e));
            lemma_entry_rows_push(q.drop_last(), e);
        }
        assert(rows_view(self.duplicates) == sort_distinct(entry_rows(q.drop_last())));
        insert_row_distinct(&mut self.duplicates, row);
        self.last_key = Some(key_value);
        self.run = Ghost(q);
    }

    fn flush(&mut self, out: &mut Vec<Vec<Vec<u8>>>) {
        push_all(out, &self.duplicates);
        self.duplicates = Vec::new();
        self.last_key = None;
        self.run = Ghost(Seq::empty());
        assert(rows_view(self.duplicates) =~= sort_distinct(entry_rows(Seq::<Entry>::empty())));
    }
}

proof fn lemma_side_rows_push(run: Seq<Entry>, e: Entry, side: Side)
    ensures
        side_rows(run.push(e), side) == if e.2 == side {
            side_rows(run, side).push(e.0)
        } else {
            side_rows(run, side)
        },
{
    assert(run.push(e).drop_last() =~= run);
}

/// Splits a run into its left rows and its right rows, in arrival order.
fn split_sides(dups: &Vec<(Vec<Vec<u8>>, Vec<u8>, Side)>) -> (r: (Vec<Vec<Vec<u8>>>, Vec<Vec<Vec<u8>>>))
    ensures
        rows_view(r.0) == side_rows(entries_view(*dups), Side::Left),
        rows_view(r.1) == side_rows(entries_view(*dups), Side::Right),
{
    let ghost ev = entries_view(*dups);
    let mut xs: Vec<Vec<Vec<u8>>> = Vec::new();
    let mut ys: Vec<Vec<Vec<u8>>> = Vec::new();
    let mut i: usize = 0;
    assert(ev.take(0) =~= Seq::<Entry>::empty());
    assert(rows_view(xs) =~= Seq::<Seq<Seq<u8>>>::empty());
    assert(rows_view(ys) =~= Seq::<Seq<Seq<u8>>>::empty());
    while i < dups.len()
        invariant
            ev == entries_view(*dups),
            i <= dups.len(),
            rows_view(xs) == side_rows(ev.take(i as int), Side::Left),
            rows_view(ys) == side_rows(ev.take(i as int), Side::Right),
        decreases dups.len() - i,
    {
        let ghost e = ev[i as int];
        assert(ev.take(i + 1) =~= ev.take(i as int).push(e));
        proof {
            lemma_side_rows_push(ev.take(i as int), e, Side::Left);
            lemma_side_rows_push(ev.take(i as int), e, Side::Right);
        }
        let row = clone_row(&dups[i].0);
        match dups[i].2 {
            Side::Left => {
                let ghost before = rows_view(xs);
                xs.push(row);
                assert(rows_view(xs) =~= before.push(e.0));
            },
            Side::Right => {
                let ghost before = rows_view(ys);
                ys.push(row);
                assert(rows_view(ys) =~= before.push(e.0));
            },
        }
        i += 1;
    }
    assert(ev.take(dups.len() as int) =~= ev);
    (xs, ys)
}

proof fn lemma_insert_stable_at(s: Seq<Entry>, e: Entry, k: int)
    requires
        0 <= k <= s.len(),
        forall|t: int| k <= t < s.len() ==> row_lt(e.0, #[trigger] s[t].0),
        k > 0 ==> !row_lt(e.0, s[k - 1].0),
    ensures
        insert_stable(s, e) == s.take(k) + seq![e] + s.skip(k),
    decreases s.len(),
{
    if s.len() == 0 {
        assert(s.take(k) + seq![e] + s.skip(k) =~= seq![e]);
    } else if k == s.len() {
        assert(s.last() == s[k - 1]);
        assert(s.take(k) + seq![e] + s.skip(k) =~= s.push(e));
    } else {
        let d = s.drop_last();
        assert(s.last() == s[s.len() - 1]);
        assert forall|t: int| k <= t < d.len() implies row_lt(e.0, #[trigger] d[t].0) by {
            assert(d[t] == s[t]);
        }
        if k > 0 {
            assert(d[k - 1] == s[k - 1]);
        }
        lemma_insert_stable_at(d, e, k);
        assert((d.take(k) + seq![e] + d.skip(k)).push(s.last()) =~= s.take(k) + seq![e] + s.skip(k));
    }
}

/// Copies an entry.
fn clone_entry(e: &(Vec<Vec<u8>>, Vec<u8>, Side)) -> (r: (Vec<Vec<u8>>, Vec<u8>, Side))
    ensures
        entry_view(r) == entry_view(*e),
{
    (clone_row(&e.0), clone_bytes(&e.1), e.2)
}

/// Puts `e` into `s` after every entry whose row does not exceed its own.
fn insert_entry_stable(s: &mut Vec<(Vec<Vec<u8>>, Vec<u8>, Side)>, e: (Vec<Vec<u8>>, Vec<u8>, Side))
    ensures
        entries_view(*final(s)) == insert_stable(entries_view(*old(s)), entry_view(e)),
{
    let ghost sv = entries_view(*s);
    let ghost ev = entry_view(e);
    let mut k: usize = s.len();
    let mut found = false;
    while k > 0 && !found
        invariant
            sv == entries_view(*s),
            ev == entry_view(e),
            k <= s.len(),
            forall|t: int| k <= t < sv.len() ==> row_lt(ev.0, #[trigger] sv[t].0),
            found ==> k > 0 && !row_lt(ev.0, sv[k - 1].0),
        decreases k, (if found { 0int } else { 1int }),
    {
        match compare_rows(&e.0, &s[k - 1].0) {
            Ordering::Less => {
                k -= 1;
            },
            _ => {
                found = true;
            },
        }
    }
    proof {
        lemma_insert_stable_at(sv, ev, k as int);
    }
    s.insert(k, e);
    assert(entries_view(*s) =~= sv.take(k as int) + seq![ev] + sv.skip(k as int));
}

/// The entries of a run sorted by row, repeated entries dropped.
fn sort_unique_entries(dups: &Vec<(Vec<Vec<u8>>, Vec<u8>, Side)>) -> (r: Vec<(Vec<Vec<u8>>, Vec<u8>, Side)>)
    ensures
        entries_view(r) == sorted_unique_entries(entries_view(*dups)),
{
    let ghost ev = entries_view(*dups);
    let mut sorted: Vec<(Vec<Vec<u8>>, Vec<u8>, Side)> = Vec::new();
    let mut i: usize = 0;
    assert(ev.take(0) =~= Seq::<Entry>::empty());
    assert(entries_view(sorted) =~= sort_entries(Seq::<Entry>::empty()));
    while i < dups.len()
        invariant
            ev == entries_view(*dups),
            i <= dups.len(),
            entries_view(sorted) == sort_entries(ev.take(i as int)),
        decreases dups.len() - i,
    {
        assert(ev.take(i + 1).drop_last() =~= ev.take(i as int));
        assert(ev.take(i + 1).last() == ev[i as int]);
        insert_entry_stable(&mut sorted, clone_entry(&dups[i]));
        i += 1;
    }
    assert(ev.take(dups.len() as int) =~= ev);
    let ghost sv = entries_view(sorted);
    let mut out: Vec<(Vec<Vec<u8>>, Vec<u8>, Side)> = Vec::new();
    let mut j: usize = 0;
    assert(sv.take(0) =~= Seq::<Entry>::empty());
    assert(entries_view(out) =~= Seq::<Entry>::empty());
    while j < sorted.len()
        invariant
            sv == entries_view(sorted),
            j <= sorted.len(),
            entries_view(out) == dedup_adjacent(sv.take(j as int)),
        decreases sorted.len() - j,
    {
        let ghost t = sv.take(j + 1);
        assert(t.drop_last() =~= sv.take(j as int));
        assert(t.last() == sv[j as int]);
        let repeat = if j == 0 {
            false
        } else {
            let a = &sorted[j - 1];
            let b = &sorted[j];
            let same_row = match compare_rows(&a.0, &b.0) {
                Ordering::Equal => true,
                _ => false,
            };
            let same_side = match (a.2, b.2) {
                (Side::Left, Side::Left) => true,
                (Side::Right, Side::Right) => true,
                _ => false,
            };
            same_row && same_side && bytes_eq(&a.1, &b.1)
        };
        if j > 0 {
            assert(t[t.len() - 2] == sv[j - 1]);
        } else {
            assert(t =~= seq![sv[0]]);
        }
        if !repeat {
            let ghost before = entries_view(out);
            out.push(clone_entry(&sorted[j]));
            assert(entries_view(out) =~= before.push(sv[j as int]));
            if j == 0 {
                assert(entries_view(out) =~= t);
            }
        }
        j += 1;
    }
    assert(sv.take(sorted.len() as int) =~= sv);
    out
}

/// Appends the cross-join of `x` and `y` to `out`.
fn emit_cross(x: &Vec<Vec<Vec<u8>>>, y: &Vec<Vec<Vec<u8>>>, out: &mut Vec<Vec<Vec<u8>>>)
    ensures
        rows_view(*final(out)) == rows_view(*old(out)) + cross_rows(rows_view(*x), rows_view(*y)),
{
    let ghost o = rows_view(*out);
    let ghost xv = rows_view(*x);
    let ghost yv = rows_view(*y);
    if x.len() > 0 && y.len() > 0 {
        let mut i: usize = 0;
        assert(xv.take(0) =~= Seq::<Seq<Seq<u8>>>::empty());
        assert(o + cross_pairs(xv.take(0), yv) =~= o);
        while i < x.len()
            invariant
                xv == rows_view(*x),
                yv == rows_view(*y),
                i <= x.len(),
                rows_view(*out) == o + cross_pairs(xv.take(i as int), yv),
            decreases x.len() - i,
        {
            let ghost xi = xv[i as int];
            let ghost base = rows_view(*out);
            let mut j: usize = 0;
            assert(base =~= base + yv.take(0).map_values(|r: Seq<Seq<u8>>| compose(xi, r)));
            while j < y.len()
                invariant
                    xv == rows_view(*x),
                    yv == rows_view(*y),
                    i < x.len(),
                    xi == xv[i as int],
                    j <= y.len(),
                    rows_view(*out) == base + yv.take(j as int).map_values(|r: Seq<Seq<u8>>| compose(xi, r)),
                decreases y.len() - j,
            {
                let c = compose_rows(&x[i], &y[j]);
                let ghost before = rows_view(*out);
                out.push(c);
                assert(rows_view(*out) =~= before.push(compose(xi, yv[j as int])));
                assert(yv.take(j + 1).map_values(|r: Seq<Seq<u8>>| compose(xi, r)) =~= yv.take(
                    j as int,
                ).map_values(|r: Seq<Seq<u8>>| compose(xi, r)).push(compose(xi, yv[j as int])));
                j += 1;
            }
            assert(yv.take(y.len() as int) =~= yv);
            assert(xv.take(i + 1).drop_last() =~= xv.take(i as int));
            assert(xv.take(i + 1).last() == xi);
            i += 1;
        }
        assert(xv.take(x.len() as int) =~= xv);
    } else if y.len() > 0 {
        push_all(out, y);
    } else {
        push_all(out, x);
    }
}

/// Combines the left and right rows of each run pair by pair; a run with
/// rows from one side only passes through.
pub struct CrossJoinStrategyHandler {
    duplicates: Vec<(Vec<Vec<u8>>, Vec<u8>, Side)>,
    remove_similar: bool,
    numeric: bool,
}

impl CrossJoinStrategyHandler {
    /// With `remove_similar`, each run is first sorted by row and repeated
    /// entries (same row, key and side) are dropped.
    pub fn build(remove_similar: bool, numeric: bool) -> (r: Self)
        ensures
            r.wf(),
            r.pending() == Seq::<Entry>::empty(),
            r.numeric() == numeric,
            r.policy() == if remove_similar {
                DeduplicateStrategy::CrossJoinAndRemoveSimilar
            } else {
                DeduplicateStrategy::CrossJoin
            },
    {
        let r = CrossJoinStrategyHandler { duplicates: Vec::new(), remove_similar, numeric };
        assert(entries_view(r.duplicates) =~= Seq::<Entry>::empty());
        r
    }

    /// A cross-join handler runs one of the two cross-join policies.
    pub proof fn lemma_policy_is_cross_join(&self)
        ensures
            self.policy() == DeduplicateStrategy::CrossJoin || self.policy()
                == DeduplicateStrategy::CrossJoinAndRemoveSimilar,
    {
    }

    fn flush_duplicates(&mut self, out: &mut Vec<Vec<Vec<u8>>>)
        ensures
            rows_view(*final(out)) == rows_view(*old(out)) + collapse(old(self).policy(), old(self).pending()),
            final(self).pending() == Seq::<Entry>::empty(),
            final(self).remove_similar == old(self).remove_similar,
            final(self).numeric == old(self).numeric,
    {
        if self.remove_similar {
            let unique = sort_unique_entries(&self.duplicates);
            let (xs, ys) = split_sides(&unique);
            emit_cross(&xs, &ys, out);
        } else {
            let (xs, ys) = split_sides(&self.duplicates);
            emit_cross(&xs, &ys, out);
        }
        self.duplicates = Vec::new();
        assert(entries_view(self.duplicates) =~= Seq::<Entry>::empty());
    }
}

impl StrategyHandler for CrossJoinStrategyHandler {
    closed spec fn policy(&self) -> DeduplicateStrategy {
        if self.remove_similar {
            DeduplicateStrategy::CrossJoinAndRemoveSimilar
        } else {
            DeduplicateStrategy::CrossJoin
        }
    }

    closed spec fn pending(&self) -> Seq<Entry> {
        entries_view(self.duplicates)
    }

    closed spec fn numeric(&self) -> bool {
        self.numeric
    }

    closed spec fn wf(&self) -> bool {
        true
    }

    fn add_row(&mut self, row: Vec<Vec<u8>>, key_value: Vec<u8>, side: Side, out: &mut Vec<Vec<Vec<u8>>>) {
        let ghost e: Entry = (row_view(row), key_value@, side);
        let ghost o = rows_view(*out);
        let ghost p = entries_view(self.duplicates);
        let n = self.duplicates.len();
        let close = n > 0 && !keys_match(&self.duplicates[n - 1].1, &key_value, self.numeric);
        if close {
            self.flush_duplicates(out);
        } else {
            assert(rows_view(*out) =~= o + Seq::<Seq<Seq<u8>>>::empty());
        }
        let ghost before = entries_view(self.duplicates);
        self.duplicates.push((row, key_value, side));
        assert(entries_view(self.duplicates) =~= before.push(e));
        assert(Seq::<Entry>::empty().push(e) =~= seq![e]);
    }

    fn flush(&mut self, out: &mut Vec<Vec<Vec<u8>>>) {
        self.flush_duplicates(out);
    }
}

/// One handler of each policy, behind the shared contract.
pub enum DeduplicateStrategyHandler {
    KeepAll(KeepAllStrategyHandler),
    FirstOnly(KeepFirstStrategyHandler),
    RemoveSimilar(RemoveSimilarStrategyHandler),
    Reduce(ReduceStrategyHandler),
    CrossJoin(CrossJoinStrategyHandler),
    CrossJoinAndRemoveSimilar(CrossJoinStrategyHandler),
}

impl DeduplicateStrategyHandler {
    pub open spec fn policy(&self) -> DeduplicateStrategy {
        match self {
            DeduplicateStrategyHandler::KeepAll(h) => h.policy(),
            DeduplicateStrategyHandler::FirstOnly(h) => h.policy(),
            DeduplicateStrategyHandler::RemoveSimilar(h) => h.policy(),
            DeduplicateStrategyHandler::Reduce(h) => h.policy(),
            DeduplicateStrategyHandler::CrossJoin(h) => h.policy(),
            DeduplicateStrategyHandler::CrossJoinAndRemoveSimilar(h) => h.policy(),
        }
    }

    pub open spec fn pending(&self) -> Seq<Entry> {
        match self {
            DeduplicateStrategyHandler::KeepAll(h) => h.pending(),
            DeduplicateStrategyHandler::FirstOnly(h) => h.pending(),
            DeduplicateStrategyHandler::RemoveSimilar(h) => h.pending(),
            DeduplicateStrategyHandler::Reduce(h) => h.pending(),
            DeduplicateStrategyHandler::CrossJoin(h) => h.pending(),
            DeduplicateStrategyHandler::CrossJoinAndRemoveSimilar(h) => h.pending(),
        }
    }

    pub open spec fn numeric(&self) -> bool {
        match self {
            DeduplicateStrategyHandler::KeepAll(h) => h.numeric(),
            DeduplicateStrategyHandler::FirstOnly(h) => h.numeric(),
            DeduplicateStrategyHandler::RemoveSimilar(h) => h.numeric(),
            DeduplicateStrategyHandler::Reduce(h) => h.numeric(),
            DeduplicateStrategyHandler::CrossJoin(h) => h.numeric(),
            DeduplicateStrategyHandler::CrossJoinAndRemoveSimilar(h) => h.numeric(),
        }
    }

    pub open spec fn wf(&self) -> bool {
        match self {
            DeduplicateStrategyHandler::KeepAll(h) => h.wf(),
            DeduplicateStrategyHandler::FirstOnly(h) => h.wf(),
            DeduplicateStrategyHandler::RemoveSimilar(h) => h.wf(),
            DeduplicateStrategyHandler::Reduce(h) => h.wf(),
            DeduplicateStrategyHandler::CrossJoin(h) => h.wf(),
            DeduplicateStrategyHandler::CrossJoinAndRemoveSimilar(h) => h.wf(),
        }
    }

    /// Takes the next entry and appends to `out` what it closes.
    pub fn add_row(&mut self, row: Vec<Vec<u8>>, value: Vec<u8>, side: Side, out: &mut Vec<Vec<Vec<u8>>>)
        requires
            old(self).wf(),
        ensures
            final(self).wf(),
            final(self).policy() == old(self).policy(),
            final(self).numeric() == old(self).numeric(),
            rows_view(*final(out)) == rows_view(*old(out)) + add_step(
                old(self).policy(),
                old(self).numeric(),
                old(self).pending(),
                (row_view(row), value@, side),
            ).0,
            final(self).pending() == add_step(
                old(self).policy(),
                old(self).numeric(),
                old(self).pending(),
                (row_view(row), value@, side),
            ).1,
    {
        match self {
            DeduplicateStrategyHandler::KeepAll(h) => h.add_row(row, value, side, out),
            DeduplicateStrategyHandler::FirstOnly(h) => h.add_row(row, value, side, out),
            DeduplicateStrategyHandler::RemoveSimilar(h) => h.add_row(row, value, side, out),
            DeduplicateStrategyHandler::Reduce(h) => h.add_row(row, value, side, out),
            DeduplicateStrategyHandler::CrossJoin(h) => h.add_row(row, value, side, out),
            DeduplicateStrategyHandler::CrossJoinAndRemoveSimilar(h) => h.add_row(row, value, side, out),
        }
    }

    /// Closes the open run and appends what it collapses to.
    pub fn flush(&mut self, out: &mut Vec<Vec<Vec<u8>>>)
        requires
            old(self).wf(),
        ensures
            final(self).wf(),
            final(self).policy() == old(self).policy(),
            final(self).numeric() == old(self).numeric(),
            rows_view(*final(out)) == rows_view(*old(out)) + collapse(old(self).policy(), old(self).pending()),
            final(self).pending() == Seq::<Entry>::empty(),
    {
        match self {
            DeduplicateStrategyHandler::KeepAll(h) => h.flush(out),
            DeduplicateStrategyHandler::FirstOnly(h) => h.flush(out),
            DeduplicateStrategyHandler::RemoveSimilar(h) => h.flush(out),
            DeduplicateStrategyHandler::Reduce(h) => h.flush(out),
            DeduplicateStrategyHandler::CrossJoin(h) => h.flush(out),
            DeduplicateStrategyHandler::CrossJoinAndRemoveSimilar(h) => h.flush(out),
        }
    }
}

impl DeduplicateStrategy {
    /// A fresh handler for this policy, with no run open; with `numeric`,
    /// keys of equal integer value share a run.
    pub fn create(strategy: DeduplicateStrategy, numeric: bool) -> (r: DeduplicateStrategyHandler)
        ensures
            r.wf(),
            r.policy() == strategy,
            r.numeric() == numeric,
            r.pending() == Seq::<Entry>::empty(),
    {
        match strategy {
            DeduplicateStrategy::KeepAll => DeduplicateStrategyHandler::KeepAll(KeepAllStrategyHandler::build(numeric)),
            DeduplicateStrategy::KeepFirst => DeduplicateStrategyHandler::FirstOnly(KeepFirstStrategyHandler::build(numeric)),
            DeduplicateStrategy::RemoveSimilar => DeduplicateStrategyHandler::RemoveSimilar(
                RemoveSimilarStrategyHandler::build(numeric),
            ),
            DeduplicateStrategy::Reduce => DeduplicateStrategyHandler::Reduce(ReduceStrategyHandler::build(numeric)),
            DeduplicateStrategy::CrossJoin => DeduplicateStrategyHandler::CrossJoin(
                CrossJoinStrategyHandler::build(false, numeric),
            ),
            DeduplicateStrategy::CrossJoinAndRemoveSimilar => DeduplicateStrategyHandler::CrossJoinAndRemoveSimilar(
                CrossJoinStrategyHandler::build(true, numeric),
            ),
        }
    }
}

/// Rows in strictly increasing order, hence pairwise distinct.
pub open spec fn strictly_sorted(s: Seq<Seq<Seq<u8>>>) -> bool {
    forall|i: int, j: int| 0 <= i < j < s.len() ==> row_lt(s[i], s[j])
}

pub proof fn lemma_concat_contains<T>(a: Seq<T>, b: Seq<T>, x: T)
    ensures
        (a + b).contains(x) == (a.contains(x) || b.contains(x)),
{
    if a.contains(x) {
        let k = choose|k: int| 0 <= k < a.len() && a[k] == x;
        assert((a + b)[k] == x);
    }
    if b.contains(x) {
        let k = choose|k: int| 0 <= k < b.len() && b[k] == x;
        assert((a + b)[a.len() + k] == x);
    }
    if (a + b).contains(x) {
        let k = choose|k: int| 0 <= k < (a + b).len() && (a + b)[k] == x;
        if k < a.len() {
            assert(a[k] == x);
        } else {
            assert(b[k - a.len()] == x);
        }
    }
}

proof fn lemma_insert_distinct_contains(s: Seq<Seq<Seq<u8>>>, r: Seq<Seq<u8>>, x: Seq<Seq<u8>>)
    ensures
        insert_distinct(s, r).contains(x) == (s.contains(x) || x == r),
    decreases s.len(),
{
    if s.len() == 0 {
        assert(seq![r][0] == r);
    } else if row_lt(r, s[0]) {
        lemma_concat_contains(seq![r], s, x);
        assert(seq![r][0] == r);
    } else if r == s[0] {
        assert(s[0] == r);
    } else {
        let t = s.drop_first();
        lemma_insert_distinct_contains(t, r, x);
        lemma_concat_contains(seq![s[0]], insert_distinct(t, r), x);
        assert(s =~= seq![s[0]] + t);
        lemma_concat_contains(seq![s[0]], t, x);
        assert(seq![s[0]][0] == s[0]);
        if seq![s[0]].contains(x) {
            let k = choose|k: int| 0 <= k < 1 && seq![s[0]][k] == x;
        }
    }
}

proof fn lemma_insert_distinct_sorted(s: Seq<Seq<Seq<u8>>>, r: Seq<Seq<u8>>)
    requires
        strictly_sorted(s),
    ensures
        strictly_sorted(insert_distinct(s, r)),
    decreases s.len(),
{
    if s.len() == 0 {
    } else if row_lt(r, s[0]) {
        let t = seq![r] + s;
        assert forall|i: int, j: int| 0 <= i < j < t.len() implies row_lt(t[i], t[j]) by {
            if i == 0 {
                if j > 1 {
                    lemma_row_lt_transitive(r, s[0], s[j - 1]);
                }
            } else {
                assert(t[i] == s[i - 1] && t[j] == s[j - 1]);
            }
        }
    } else if r == s[0] {
    } else {
        let d = s.drop_first();
        lemma_insert_distinct_sorted(d, r);
        lemma_row_lt_total(r, s[0]);
        let u = insert_distinct(d, r);
        let t = seq![s[0]] + u;
        assert forall|i: int, j: int| 0 <= i < j < t.len() implies row_lt(t[i], t[j]) by {
            if i == 0 {
                assert(t[j] == u[j - 1]);
                assert(u.contains(u[j - 1]));
                lemma_insert_distinct_contains(d, r, u[j - 1]);
                if d.contains(u[j - 1]) {
                    let k = choose|k: int| 0 <= k < d.len() && d[k] == u[j - 1];
                    assert(s[k + 1] == d[k]);
                }
            } else {
                assert(t[i] == u[i - 1] && t[j] == u[j - 1]);
            }
        }
    }
}

/// Remove-similar emits each run's rows strictly increasing, so without
/// repeats, and every row of the run shows up.
pub proof fn law_remove_similar_sorted_distinct(rows: Seq<Seq<Seq<u8>>>)
    ensures
        strictly_sorted(sort_distinct(rows)),
        forall|i: int, j: int|
            0 <= i < j < sort_distinct(rows).len() ==> sort_distinct(rows)[i] != sort_distinct(rows)[j],
        forall|x: Seq<Seq<u8>>| sort_distinct(rows).contains(x) == rows.contains(x),
    decreases rows.len(),
{
    if rows.len() > 0 {
        let d = rows.drop_last();
        law_remove_similar_sorted_distinct(d);
        lemma_insert_distinct_sorted(sort_distinct(d), rows.last());
        assert forall|x: Seq<Seq<u8>>| sort_distinct(rows).contains(x) == rows.contains(x) by {
            lemma_insert_distinct_contains(sort_distinct(d), rows.last(), x);
            assert(rows =~= d.push(rows.last()));
            lemma_concat_contains(d, seq![rows.last()], x);
            assert(d.push(rows.last()) =~= d + seq![rows.last()]);
            assert(seq![rows.last()][0] == rows.last());
            if seq![rows.last()].contains(x) {
                let k = choose|k: int| 0 <= k < 1 && seq![rows.last()][k] == x;
            }
        }
    }
    let t = sort_distinct(rows);
    assert forall|i: int, j: int| 0 <= i < j < t.len() implies t[i] != t[j] by {
        lemma_row_lt_irreflexive(t[i]);
    }
}

proof fn lemma_cross_pairs_len(x: Seq<Seq<Seq<u8>>>, y: Seq<Seq<Seq<u8>>>)
    ensures
        cross_pairs(x, y).len() == x.len() * y.len(),
    decreases x.len(),
{
    if x.len() > 0 {
        lemma_cross_pairs_len(x.drop_last(), y);
        let m = x.len() as int;
        let n = y.len() as int;
        assert((m - 1) * n + n == m * n) by (nonlinear_arith);
    }
}

/// A cross-join of a run with `m` left rows and `n` right rows emits `m·n`
/// rows when both are positive, else `max(m, n)`.
pub proof fn law_cross_join_count(run: Seq<Entry>)
    ensures
        ({
            let m = side_rows(run, Side::Left).len();
            let n = side_rows(run, Side::Right).len();
            collapse(DeduplicateStrategy::CrossJoin, run).len() == if m > 0 && n > 0 {
                m * n
            } else if m >= n {
                m
            } else {
                n
            }
        }),
{
    lemma_cross_pairs_len(side_rows(run, Side::Left), side_rows(run, Side::Right));
}

/// Reduce leaves a single row alone, and merging a run's reduced row into it
/// once more, or a row with itself, changes nothing.
pub proof fn law_reduce_idempotent(r: Seq<Seq<u8>>, s: Seq<Seq<Seq<u8>>>)
    requires
        s.len() > 0,
    ensures
        reduce_rows(seq![r]) == r,
        reduce_rows(seq![r, r]) == r,
        reduce_rows(seq![reduce_rows(s)]) == reduce_rows(s),
        reduce_rows(s.push(reduce_rows(s))) == reduce_rows(s),
{
    assert(compose(r, r) =~= r);
    assert(seq![r, r].drop_last() =~= seq![r]);
    assert(seq![r, r].last() == r);
    assert(reduce_rows(seq![r]) == r);
    assert(reduce_rows(seq![r, r]) == compose(reduce_rows(seq![r]), r));
    let t = reduce_rows(s);
    assert(compose(t, t) =~= t);
    assert(s.push(t).drop_last() =~= s);
}

/// Keep-all emits the rows of the entries, each once, in arrival order.
pub proof fn law_keep_all_passes_rows(numeric: bool, items: Seq<Entry>)
    ensures
        deduplicate(DeduplicateStrategy::KeepAll, numeric, items) == entry_rows(items),
        dedup_fold(DeduplicateStrategy::KeepAll, numeric, items).1 == Seq::<Entry>::empty(),
    decreases items.len(),
{
    if items.len() > 0 {
        let d = items.drop_last();
        law_keep_all_passes_rows(numeric, d);
        lemma_entry_rows_push(d, items.last());
        assert(items =~= d.push(items.last()));
        assert(entry_rows(d) + collapse(DeduplicateStrategy::KeepAll, Seq::<Entry>::empty()) =~= entry_rows(d));
        assert(entry_rows(d).push(items.last().0) =~= entry_rows(d) + seq![items.last().0]);
    }
    assert(entry_rows(Seq::<Entry>::empty()) =~= Seq::<Seq<Seq<u8>>>::empty());
    let (o, p) = dedup_fold(DeduplicateStrategy::KeepAll, numeric, items);
    assert(o + entry_rows(p) =~= o);
}

/// Every row has `w` fields.
pub open spec fn all_width(rows: Seq<Seq<Seq<u8>>>, w: int) -> bool {
    forall|k: int| 0 <= k < rows.len() ==> (#[trigger] rows[k]).len() == w
}

proof fn lemma_concat_width(a: Seq<Seq<Seq<u8>>>, b: Seq<Seq<Seq<u8>>>, w: int)
    requires
        all_width(a, w),
        all_width(b, w),
    ensures
        all_width(a + b, w),
{
    assert forall|k: int| 0 <= k < (a + b).len() implies (#[trigger] (a + b)[k]).len() == w by {
        if k < a.len() {
            assert((a + b)[k] == a[k]);
        } else {
            assert((a + b)[k] == b[k - a.len()]);
        }
    }
}

proof fn lemma_side_rows_width(run: Seq<Entry>, side: Side, w: int)
    requires
        all_width(entry_rows(run), w),
    ensures
        all_width(side_rows(run, side), w),
    decreases run.len(),
{
    if run.len() > 0 {
        let d = run.drop_last();
        assert(entry_rows(d) =~= entry_rows(run).drop_last());
        assert(all_width(entry_rows(d), w)) by {
            assert forall|k: int| 0 <= k < entry_rows(d).len() implies (#[trigger] entry_rows(d)[k]).len() == w by {
                assert(entry_rows(d)[k] == entry_rows(run)[k]);
            }
        }
        lemma_side_rows_width(d, side, w);
        assert(entry_rows(run)[run.len() - 1] == run.last().0);
    }
}

proof fn lemma_reduce_width(s: Seq<Seq<Seq<u8>>>, w: int)
    requires
        s.len() > 0,
        all_width(s, w),
    ensures
        reduce_rows(s).len() == w,
    decreases s.len(),
{
    if s.len() > 1 {
        assert(all_width(s.drop_last(), w)) by {
            assert forall|k: int| 0 <= k < s.drop_last().len() implies (#[trigger] s.drop_last()[k]).len() == w by {
                assert(s.drop_last()[k] == s[k]);
            }
        }
        lemma_reduce_width(s.drop_last(), w);
    }
}

proof fn lemma_sort_distinct_width(rows: Seq<Seq<Seq<u8>>>, w: int)
    requires
        all_width(rows, w),
    ensures
        all_width(sort_distinct(rows), w),
{
    law_remove_similar_sorted_distinct(rows);
    let t = sort_distinct(rows);
    assert forall|k: int| 0 <= k < t.len() implies (#[trigger] t[k]).len() == w by {
        assert(t.contains(t[k]));
        assert(sort_distinct(rows).contains(t[k]) == rows.contains(t[k]));
        assert(rows.contains(t[k]));
        let j = choose|j: int| 0 <= j < rows.len() && rows[j] == t[k];
        assert(rows[j].len() == w);
    }
}

proof fn lemma_cross_rows_width(x: Seq<Seq<Seq<u8>>>, y: Seq<Seq<Seq<u8>>>, w: int)
    requires
        all_width(x, w),
        all_width(y, w),
    ensures
        all_width(cross_rows(x, y), w),
{
    if x.len() > 0 && y.len() > 0 {
        lemma_cross_pairs_width(x, y, w);
    }
}

proof fn lemma_cross_pairs_width(x: Seq<Seq<Seq<u8>>>, y: Seq<Seq<Seq<u8>>>, w: int)
    requires
        all_width(x, w),
    ensures
        all_width(cross_pairs(x, y), w),
    decreases x.len(),
{
    if x.len() > 0 {
        let d = x.drop_last();
        assert(all_width(d, w)) by {
            assert forall|k: int| 0 <= k < d.len() implies (#[trigger] d[k]).len() == w by {
                assert(d[k] == x[k]);
            }
        }
        lemma_cross_pairs_width(d, y, w);
        let last = x.last();
        assert(x[x.len() - 1] == last);
        let m = y.map_values(|r: Seq<Seq<u8>>| compose(last, r));
        assert(all_width(m, w));
        lemma_concat_width(cross_pairs(d, y), m, w);
    }
}

proof fn lemma_collapse_width(policy: DeduplicateStrategy, run: Seq<Entry>, w: int)
    requires
        all_width(entry_rows(run), w),
    ensures
        all_width(collapse(policy, run), w),
{
    lemma_side_rows_width(run, Side::Left, w);
    lemma_side_rows_width(run, Side::Right, w);
    match policy {
        DeduplicateStrategy::KeepAll => {},
        DeduplicateStrategy::KeepFirst => {
            if run.len() == 1 {
                assert(entry_rows(run)[0] == run[0].0);
            }
        },
        DeduplicateStrategy::RemoveSimilar => {
            lemma_sort_distinct_width(entry_rows(run), w);
        },
        DeduplicateStrategy::Reduce => {
            if run.len() > 0 {
                lemma_reduce_width(entry_rows(run), w);
            }
        },
        DeduplicateStrategy::CrossJoin => {
            lemma_cross_rows_width(side_rows(run, Side::Left), side_rows(run, Side::Right), w);
        },
        DeduplicateStrategy::CrossJoinAndRemoveSimilar => {
            let t = sorted_unique_entries(run);
            lemma_unique_entries_within(run);
            lemma_within_width(t, run, w);
            lemma_side_rows_width(t, Side::Left, w);
            lemma_side_rows_width(t, Side::Right, w);
            lemma_cross_rows_width(side_rows(t, Side::Left), side_rows(t, Side::Right), w);
        },
    }
}

proof fn lemma_fold_width(policy: DeduplicateStrategy, numeric: bool, items: Seq<Entry>, w: int)
    requires
        all_width(entry_rows(items), w),
    ensures
        all_width(dedup_fold(policy, numeric, items).0, w),
        all_width(entry_rows(dedup_fold(policy, numeric, items).1), w),
    decreases items.len(),
{
    if items.len() > 0 {
        let d = items.drop_last();
        let e = items.last();
        assert(entry_rows(d) =~= entry_rows(items).drop_last());
        assert(all_width(entry_rows(d), w)) by {
            assert forall|k: int| 0 <= k < entry_rows(d).len() implies (#[trigger] entry_rows(d)[k]).len() == w by {
                assert(entry_rows(d)[k] == entry_rows(items)[k]);
            }
        }
        lemma_fold_width(policy, numeric, d, w);
        let (o, p) = dedup_fold(policy, numeric, d);
        assert(entry_rows(items)[items.len() - 1] == e.0);
        lemma_collapse_width(policy, p, w);
        lemma_entry_rows_push(p, e);
        assert(entry_rows(seq![e]) =~= seq![e.0]);
        assert(entry_rows(Seq::<Entry>::empty()) =~= Seq::<Seq<Seq<u8>>>::empty());
        assert(all_width(entry_rows(p).push(e.0), w));
        let step = add_step(policy, numeric, p, e);
        assert(all_width(step.0, w));
        lemma_concat_width(o, step.0, w);
    }
}

/// Deduplication keeps the row width: rows of `w` fields come out with `w` fields.
pub proof fn law_rows_keep_width(policy: DeduplicateStrategy, numeric: bool, items: Seq<Entry>, w: int)
    requires
        all_width(entry_rows(items), w),
    ensures
        all_width(deduplicate(policy, numeric, items), w),
{
    lemma_fold_width(policy, numeric, items, w);
    let (o, p) = dedup_fold(policy, numeric, items);
    lemma_collapse_width(policy, p, w);
    lemma_concat_width(o, collapse(policy, p), w);
}

/// A row whose field `k` passes `ok`.
pub open spec fn row_key_ok(x: Seq<Seq<u8>>, k: int, ok: spec_fn(Seq<u8>) -> bool) -> bool {
    0 <= k < x.len() && ok(x[k])
}

/// An entry whose row's field `k` passes `ok`.
pub open spec fn entry_key_ok(e: Entry, k: int, ok: spec_fn(Seq<u8>) -> bool) -> bool {
    row_key_ok(e.0, k, ok)
}

/// Every row's field `k` passes `ok`.
pub open spec fn rows_key_ok(rows: Seq<Seq<Seq<u8>>>, k: int, ok: spec_fn(Seq<u8>) -> bool) -> bool {
    forall|a: int| 0 <= a < rows.len() ==> row_key_ok(#[trigger] rows[a], k, ok)
}

proof fn lemma_side_rows_key_ok(run: Seq<Entry>, side: Side, k: int, ok: spec_fn(Seq<u8>) -> bool)
    requires
        rows_key_ok(entry_rows(run), k, ok),
    ensures
        rows_key_ok(side_rows(run, side), k, ok),
    decreases run.len(),
{
    if run.len() > 0 {
        let d = run.drop_last();
        lemma_entry_rows_push(d, run.last());
        assert(run =~= d.push(run.last()));
        assert forall|a: int| 0 <= a < entry_rows(d).len() implies row_key_ok(#[trigger] entry_rows(d)[a], k, ok) by {
            assert(entry_rows(d)[a] == entry_rows(run)[a]);
        }
        lemma_side_rows_key_ok(d, side, k, ok);
        assert(entry_rows(run)[run.len() - 1] == run.last().0);
    }
}

proof fn lemma_compose_key_ok(x: Seq<Seq<u8>>, y: Seq<Seq<u8>>, k: int, ok: spec_fn(Seq<u8>) -> bool)
    requires
        row_key_ok(x, k, ok),
        row_key_ok(y, k, ok),
    ensures
        row_key_ok(compose(x, y), k, ok),
{
}

proof fn lemma_reduce_key_ok(s: Seq<Seq<Seq<u8>>>, k: int, ok: spec_fn(Seq<u8>) -> bool)
    requires
        s.len() > 0,
        rows_key_ok(s, k, ok),
    ensures
        row_key_ok(reduce_rows(s), k, ok),
    decreases s.len(),
{
    if s.len() > 1 {
        let d = s.drop_last();
        assert forall|a: int| 0 <= a < d.len() implies row_key_ok(#[trigger] d[a], k, ok) by {
            assert(d[a] == s[a]);
        }
        lemma_reduce_key_ok(d, k, ok);
        assert(s[s.len() - 1] == s.last());
        lemma_compose_key_ok(reduce_rows(d), s.last(), k, ok);
    } else {
        assert(row_key_ok(s[0], k, ok));
    }
}

proof fn lemma_sort_distinct_key_ok(rows: Seq<Seq<Seq<u8>>>, k: int, ok: spec_fn(Seq<u8>) -> bool)
    requires
        rows_key_ok(rows, k, ok),
    ensures
        rows_key_ok(sort_distinct(rows), k, ok),
{
    law_remove_similar_sorted_distinct(rows);
    let t = sort_distinct(rows);
    assert forall|a: int| 0 <= a < t.len() implies row_key_ok(#[trigger] t[a], k, ok) by {
        assert(t.contains(t[a]));
        assert(sort_distinct(rows).contains(t[a]) == rows.contains(t[a]));
        let j = choose|j: int| 0 <= j < rows.len() && rows[j] == t[a];
        assert(row_key_ok(rows[j], k, ok));
    }
}

proof fn lemma_cross_pairs_key_ok(x: Seq<Seq<Seq<u8>>>, y: Seq<Seq<Seq<u8>>>, k: int, ok: spec_fn(Seq<u8>) -> bool)
    requires
        rows_key_ok(x, k, ok),
        rows_key_ok(y, k, ok),
    ensures
        rows_key_ok(cross_pairs(x, y), k, ok),
    decreases x.len(),
{
    if x.len() > 0 {
        let d = x.drop_last();
        assert forall|a: int| 0 <= a < d.len() implies row_key_ok(#[trigger] d[a], k, ok) by {
            assert(d[a] == x[a]);
        }
        lemma_cross_pairs_key_ok(d, y, k, ok);
        let last = x.last();
        assert(x[x.len() - 1] == last);
        let m = y.map_values(|r: Seq<Seq<u8>>| compose(last, r));
        let c = cross_pairs(d, y);
        assert forall|a: int| 0 <= a < (c + m).len() implies row_key_ok(#[trigger] (c + m)[a], k, ok) by {
            if a < c.len() {
                assert((c + m)[a] == c[a]);
            } else {
                assert((c + m)[a] == m[a - c.len()]);
                assert(row_key_ok(y[a - c.len()], k, ok));
                lemma_compose_key_ok(last, y[a - c.len()], k, ok);
            }
        }
    }
}

proof fn lemma_cross_rows_key_ok(x: Seq<Seq<Seq<u8>>>, y: Seq<Seq<Seq<u8>>>, k: int, ok: spec_fn(Seq<u8>) -> bool)
    requires
        rows_key_ok(x, k, ok),
        rows_key_ok(y, k, ok),
    ensures
        rows_key_ok(cross_rows(x, y), k, ok),
{
    if x.len() > 0 && y.len() > 0 {
        lemma_cross_pairs_key_ok(x, y, k, ok);
    }
}

proof fn lemma_collapse_key_ok(policy: DeduplicateStrategy, run: Seq<Entry>, k: int, ok: spec_fn(Seq<u8>) -> bool)
    requires
        rows_key_ok(entry_rows(run), k, ok),
    ensures
        rows_key_ok(collapse(policy, run), k, ok),
{
    let er = entry_rows(run);
    lemma_side_rows_key_ok(run, Side::Left, k, ok);
    lemma_side_rows_key_ok(run, Side::Right, k, ok);
    match policy {
        DeduplicateStrategy::KeepAll => {},
        DeduplicateStrategy::KeepFirst => {
            if run.len() == 1 {
                assert(er[0] == run[0].0);
                assert(row_key_ok(er[0], k, ok));
            }
        },
        DeduplicateStrategy::RemoveSimilar => {
            lemma_sort_distinct_key_ok(er, k, ok);
        },
        DeduplicateStrategy::Reduce => {
            if run.len() > 0 {
                lemma_reduce_key_ok(er, k, ok);
            }
        },
        DeduplicateStrategy::CrossJoin => {
            lemma_cross_rows_key_ok(side_rows(run, Side::Left), side_rows(run, Side::Right), k, ok);
        },
        DeduplicateStrategy::CrossJoinAndRemoveSimilar => {
            let t = sorted_unique_entries(run);
            lemma_unique_entries_within(run);
            assert forall|b: int| 0 <= b < entry_rows(t).len() implies row_key_ok(#[trigger] entry_rows(t)[b], k, ok) by {
                assert(t.contains(t[b]));
                assert(sorted_unique_entries(run).contains(t[b]));
                assert(run.contains(t[b]));
                let a = choose|a: int| 0 <= a < run.len() && run[a] == t[b];
                assert(er[a] == run[a].0);
                assert(entry_rows(t)[b] == t[b].0);
                assert(row_key_ok(er[a], k, ok));
            }
            lemma_side_rows_key_ok(t, Side::Left, k, ok);
            lemma_side_rows_key_ok(t, Side::Right, k, ok);
            lemma_cross_rows_key_ok(side_rows(t, Side::Left), side_rows(t, Side::Right), k, ok);
        },
    }
}

proof fn lemma_fold_key_ok(policy: DeduplicateStrategy, numeric: bool, items: Seq<Entry>, k: int, ok: spec_fn(Seq<u8>) -> bool)
    requires
        forall|a: int| 0 <= a < items.len() ==> entry_key_ok(#[trigger] items[a], k, ok),
    ensures
        rows_key_ok(dedup_fold(policy, numeric, items).0, k, ok),
        rows_key_ok(entry_rows(dedup_fold(policy, numeric, items).1), k, ok),
    decreases items.len(),
{
    if items.len() > 0 {
        let d = items.drop_last();
        let e = items.last();
        assert forall|a: int| 0 <= a < d.len() implies entry_key_ok(#[trigger] d[a], k, ok) by {
            assert(d[a] == items[a]);
        }
        assert(items[items.len() - 1] == e);
        lemma_fold_key_ok(policy, numeric, d, k, ok);
        let (o, p) = dedup_fold(policy, numeric, d);
        lemma_collapse_key_ok(policy, p, k, ok);
        let st = add_step(policy, numeric, p, e);
        assert(rows_key_ok(seq![e.0], k, ok));
        assert(rows_key_ok(Seq::<Seq<Seq<u8>>>::empty(), k, ok));
        assert(rows_key_ok(st.0, k, ok));
        let o2 = o + st.0;
        assert forall|b: int| 0 <= b < o2.len() implies row_key_ok(#[trigger] o2[b], k, ok) by {
            if b < o.len() {
                assert(o2[b] == o[b]);
            } else {
                assert(o2[b] == st.0[b - o.len()]);
            }
        }
        lemma_entry_rows_push(p, e);
        lemma_entry_rows_push(Seq::empty(), e);
        assert(Seq::<Entry>::empty().push(e) =~= seq![e]);
        assert(entry_rows(Seq::<Entry>::empty()) =~= Seq::<Seq<Seq<u8>>>::empty());
        let q = st.1;
        assert forall|a: int| 0 <= a < entry_rows(q).len() implies row_key_ok(#[trigger] entry_rows(q)[a], k, ok) by {
            if a < entry_rows(p).len() && entry_rows(q) == entry_rows(p).push(e.0) {
                assert(entry_rows(q)[a] == entry_rows(p)[a]);
            }
        }
    } else {
        assert(entry_rows(Seq::<Entry>::empty()) =~= Seq::<Seq<Seq<u8>>>::empty());
    }
}

/// When every entry's row passes `ok` at field `k`, every row that any
/// policy emits passes `ok` at `k`: the key field of an output row is always
/// the key field of a row it was built from.
pub proof fn law_keys_survive(policy: DeduplicateStrategy, numeric: bool, items: Seq<Entry>, k: int, ok: spec_fn(Seq<u8>) -> bool)
    requires
        forall|a: int| 0 <= a < items.len() ==> entry_key_ok(#[trigger] items[a], k, ok),
    ensures
        rows_key_ok(deduplicate(policy, numeric, items), k, ok),
{
    lemma_fold_key_ok(policy, numeric, items, k, ok);
    let (o, p) = dedup_fold(policy, numeric, items);
    lemma_collapse_key_ok(policy, p, k, ok);
    let c = collapse(policy, p);
    assert forall|b: int| 0 <= b < (o + c).len() implies row_key_ok(#[trigger] (o + c)[b], k, ok) by {
        if b < o.len() {
            assert((o + c)[b] == o[b]);
        } else {
            assert((o + c)[b] == c[b - o.len()]);
        }
    }
}

proof fn lemma_push_contains<T>(s: Seq<T>, y: T, x: T)
    ensures
        s.push(y).contains(x) == (s.contains(x) || x == y),
{
    lemma_concat_contains(s, seq![y], x);
    assert(s.push(y) =~= s + seq![y]);
    assert(seq![y][0] == y);
    if seq![y].contains(x) {
        let k = choose|k: int| 0 <= k < 1 && seq![y][k] == x;
    }
}

proof fn lemma_insert_stable_contains(s: Seq<Entry>, e: Entry, x: Entry)
    ensures
        insert_stable(s, e).contains(x) == (s.contains(x) || x == e),
    decreases s.len(),
{
    if s.len() == 0 {
        lemma_push_contains(s, e, x);
        assert(s.push(e) =~= seq![e]);
    } else {
        let d = s.drop_last();
        assert(s =~= d.push(s.last()));
        lemma_push_contains(d, s.last(), x);
        if row_lt(e.0, s.last().0) {
            lemma_insert_stable_contains(d, e, x);
            lemma_push_contains(insert_stable(d, e), s.last(), x);
        } else {
            lemma_push_contains(s, e, x);
        }
    }
}

proof fn lemma_sort_entries_contains(run: Seq<Entry>, x: Entry)
    ensures
        sort_entries(run).contains(x) == run.contains(x),
    decreases run.len(),
{
    if run.len() > 0 {
        let d = run.drop_last();
        lemma_sort_entries_contains(d, x);
        lemma_insert_stable_contains(sort_entries(d), run.last(), x);
        assert(run =~= d.push(run.last()));
        lemma_push_contains(d, run.last(), x);
    }
}

proof fn lemma_dedup_adjacent_within(s: Seq<Entry>, x: Entry)
    ensures
        dedup_adjacent(s).contains(x) ==> s.contains(x),
    decreases s.len(),
{
    if s.len() > 1 {
        let d = s.drop_last();
        lemma_dedup_adjacent_within(d, x);
        assert(s =~= d.push(s.last()));
        lemma_push_contains(d, s.last(), x);
        lemma_push_contains(dedup_adjacent(d), s.last(), x);
    }
}

/// The rows of entries drawn from `run`, when `run`'s rows have `w` fields.
proof fn lemma_within_width(t: Seq<Entry>, run: Seq<Entry>, w: int)
    requires
        forall|x: Entry| t.contains(x) ==> run.contains(x),
        all_width(entry_rows(run), w),
    ensures
        all_width(entry_rows(t), w),
{
    assert forall|k: int| 0 <= k < entry_rows(t).len() implies (#[trigger] entry_rows(t)[k]).len() == w by {
        assert(t.contains(t[k]));
        let a = choose|a: int| 0 <= a < run.len() && run[a] == t[k];
        assert(entry_rows(run)[a] == run[a].0);
    }
}

/// The entries kept by the remove-similar cross-join all come from the run.
proof fn lemma_unique_entries_within(run: Seq<Entry>)
    ensures
        forall|x: Entry| sorted_unique_entries(run).contains(x) ==> run.contains(x),
{
    assert forall|x: Entry| sorted_unique_entries(run).contains(x) implies run.contains(x) by {
        lemma_dedup_adjacent_within(sort_entries(run), x);
        lemma_sort_entries_contains(run, x);
    }
}

proof fn lemma_compose_assoc(a: Seq<Seq<u8>>, y: Seq<Seq<u8>>, z: Seq<Seq<u8>>)
    requires
        a.len() == y.len(),
        y.len() == z.len(),
    ensures
        compose(compose(a, y), z) == compose(a, compose(y, z)),
{
    assert(compose(compose(a, y), z) =~= compose(a, compose(y, z)));
}

proof fn lemma_reduce_concat(s: Seq<Seq<Seq<u8>>>, t: Seq<Seq<Seq<u8>>>, w: int)
    requires
        s.len() > 0,
        t.len() > 0,
        all_width(s, w),
        all_width(t, w),
    ensures
        reduce_rows(s + t) == compose(reduce_rows(s), reduce_rows(t)),
    decreases t.len(),
{
    lemma_reduce_width(s, w);
    if t.len() == 1 {
        assert((s + t).drop_last() =~= s);
        assert((s + t).last() == t[0]);
    } else {
        let d = t.drop_last();
        assert(all_width(d, w)) by {
            assert forall|k: int| 0 <= k < d.len() implies (#[trigger] d[k]).len() == w by {
                assert(d[k] == t[k]);
            }
        }
        lemma_reduce_concat(s, d, w);
        assert((s + t).drop_last() =~= s + d);
        assert((s + t).last() == t.last());
        assert(t[t.len() - 1] == t.last());
        lemma_reduce_width(d, w);
        lemma_compose_assoc(reduce_rows(s), reduce_rows(d), t.last());
    }
}

/// Reducing a run given twice over gives the row of reducing it once.
pub proof fn law_reduce_run_twice(g: Seq<Seq<Seq<u8>>>, w: int)
    requires
        g.len() > 0,
        all_width(g, w),
    ensures
        reduce_rows(g + g) == reduce_rows(g),
{
    lemma_reduce_concat(g, g, w);
    assert(compose(reduce_rows(g), reduce_rows(g)) =~= reduce_rows(g));
}

/// Keys of neighbouring entries never share a run.
pub open spec fn runs_are_single(items: Seq<Entry>, numeric: bool) -> bool {
    forall|a: int| 0 < a < items.len() ==> !same_key(items[a - 1].1, #[trigger] items[a].1, numeric)
}

proof fn lemma_reduce_fold_single(numeric: bool, items: Seq<Entry>)
    requires
        runs_are_single(items, numeric),
    ensures
        items.len() > 0 ==> dedup_fold(DeduplicateStrategy::Reduce, numeric, items) == (
            entry_rows(items.drop_last()),
            seq![items.last()],
        ),
    decreases items.len(),
{
    if items.len() > 1 {
        let d = items.drop_last();
        assert(runs_are_single(d, numeric)) by {
            assert forall|a: int| 0 < a < d.len() implies !same_key(d[a - 1].1, #[trigger] d[a].1, numeric) by {
                assert(d[a] == items[a] && d[a - 1] == items[a - 1]);
            }
        }
        lemma_reduce_fold_single(numeric, d);
        assert(d.last() == items[items.len() - 2]);
        assert(items.last() == items[items.len() - 1]);
        assert(seq![d.last()].last() == d.last());
        assert(reduce_rows(entry_rows(seq![d.last()])) == d.last().0) by {
            assert(entry_rows(seq![d.last()]) =~= seq![d.last().0]);
        }
        lemma_entry_rows_push(d.drop_last(), d.last());
        assert(d.drop_last().push(d.last()) =~= d);
        assert(entry_rows(d.drop_last()) + seq![d.last().0] =~= entry_rows(d));
        assert(items.drop_last() == d);
        assert(!same_key(items[items.len() - 2].1, items[items.len() - 1].1, numeric));
        let p = seq![d.last()];
        assert(p.last() == d.last());
        assert(collapse(DeduplicateStrategy::Reduce, p) == seq![d.last().0]);
        assert(add_step(DeduplicateStrategy::Reduce, numeric, p, items.last()) == (
            seq![d.last().0],
            seq![items.last()],
        ));
        let (o_prev, p_prev) = dedup_fold(DeduplicateStrategy::Reduce, numeric, d);
        assert(o_prev == entry_rows(d.drop_last()) && p_prev == p);
        assert(dedup_fold(DeduplicateStrategy::Reduce, numeric, items) == (o_prev + seq![d.last().0], seq![items.last()]));
    } else if items.len() == 1 {
        assert(items.drop_last() =~= Seq::<Entry>::empty());
        assert(dedup_fold(DeduplicateStrategy::Reduce, numeric, items.drop_last()) == (
            Seq::<Seq<Seq<u8>>>::empty(),
            Seq::<Entry>::empty(),
        ));
        assert(entry_rows(Seq::<Entry>::empty()) =~= Seq::<Seq<Seq<u8>>>::empty());
        assert(Seq::<Entry>::empty().push(items.last()) =~= seq![items.last()]);
        assert(Seq::<Seq<Seq<u8>>>::empty() + Seq::<Seq<Seq<u8>>>::empty() =~= Seq::<Seq<Seq<u8>>>::empty());
    }
}

/// Reduce leaves alone a stream whose neighbouring keys never share a run,
/// such as its own output fed back with each row's run key: every row
/// comes out as it went in.
pub proof fn law_reduce_output_is_fixed(numeric: bool, items: Seq<Entry>)
    requires
        runs_are_single(items, numeric),
    ensures
        deduplicate(DeduplicateStrategy::Reduce, numeric, items) == entry_rows(items),
{
    lemma_reduce_fold_single(numeric, items);
    if items.len() > 0 {
        let d = items.drop_last();
        assert(entry_rows(seq![items.last()]) =~= seq![items.last().0]);
        lemma_entry_rows_push(d, items.last());
        assert(d.push(items.last()) =~= items);
        assert(entry_rows(d) + seq![reduce_rows(seq![items.last().0])] =~= entry_rows(items));
    } else {
        assert(entry_rows(items) =~= Seq::<Seq<Seq<u8>>>::empty());
        assert(Seq::<Seq<Seq<u8>>>::empty() + Seq::<Seq<Seq<u8>>>::empty() =~= Seq::<Seq<Seq<u8>>>::empty());
    }
}

} // verus!
