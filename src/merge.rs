//! The merge-join: two sorted cursors, one step at a time.
use core::cmp::Ordering;
use vstd::prelude::*;

use crate::deduplicate::{
    add_step, all_width, deduplicate, dedup_fold, entry_rows, lemma_concat_contains, law_keep_all_passes_rows,
    law_keys_survive, entry_key_ok, row_key_ok, rows_key_ok,
    law_rows_keep_width, DeduplicateStrategyHandler, Entry, StrategyHandler,
};
use crate::header::{has_header, headers_view, project, project_row, MergeLayout};
use crate::key::{compare_keys, key_cmp};
use crate::record::{
    lemma_bytes_lt_asymmetric, lemma_bytes_lt_irreflexive, lemma_bytes_lt_total,
    lemma_bytes_lt_transitive,
};
use crate::record::{clone_bytes, clone_row, row_view, rows_view};
use crate::{DeduplicateStrategy, MergeError, MergeStrategy, Side};

verus! {

/// What one step of the join does with the two head rows.
#[derive(PartialEq, Eq, Structural, Clone, Copy, Debug)]
pub struct StepDecision {
    /// The left head goes to the output.
    pub emit_left: bool,
    /// The right head goes to the output.
    pub emit_right: bool,
    /// The left cursor moves on; otherwise the right one does.
    pub advance_left: bool,
}

/// The decision table of the join, given how the left head key compares to
/// the right head key and whether the right key equals the last left key passed.
pub open spec fn decide(
    strategy: MergeStrategy,
    left_fresh: bool,
    right_fresh: bool,
    last_left_key: Option<Seq<u8>>,
    cmp: Ordering,
    right_key: Seq<u8>,
) -> StepDecision {
    let carry_match = last_left_key == Some(right_key);
    let need_read_left = carry_match && cmp != Ordering::Equal;
    let le = cmp != Ordering::Greater;
    let ge = cmp != Ordering::Less;
    let eq = cmp == Ordering::Equal;
    StepDecision {
        emit_left: match strategy {
            MergeStrategy::And => left_fresh && eq,
            MergeStrategy::Or => left_fresh && le && !need_read_left,
            MergeStrategy::AndNot => left_fresh && cmp == Ordering::Less && !need_read_left,
        },
        emit_right: match strategy {
            MergeStrategy::And => right_fresh && (eq || carry_match),
            MergeStrategy::Or => right_fresh && ge,
            MergeStrategy::AndNot => false,
        },
        advance_left: le && !need_read_left,
    }
}

/// Whether the left rows that remain once the right input ended are emitted.
pub open spec fn drains_left(strategy: MergeStrategy) -> bool {
    strategy != MergeStrategy::And
}

/// The state of the join between two steps.
pub struct MergeJoin {
    pub strategy: MergeStrategy,
    /// The left head has not been emitted yet.
    pub left_fresh: bool,
    /// The right head has not been emitted yet.
    pub right_fresh: bool,
    /// The key of the left row most recently advanced past.
    pub last_left_key: Option<Vec<u8>>,
}

impl MergeJoin {
    pub open spec fn last_key_view(&self) -> Option<Seq<u8>> {
        match self.last_left_key {
            Some(k) => Some(k@),
            None => None,
        }
    }

    /// The join before its first step.
    pub fn new(strategy: MergeStrategy) -> (r: Self)
        ensures
            r.strategy == strategy,
            r.left_fresh,
            r.right_fresh,
            r.last_left_key.is_none(),
    {
        MergeJoin { strategy, left_fresh: true, right_fresh: true, last_left_key: None }
    }

    /// One step with both heads present: decides, then records what moved.
    pub fn step(&mut self, cmp: Ordering, left_key: &Vec<u8>, right_key: &Vec<u8>) -> (r: StepDecision)
        ensures
            r == decide(
                old(self).strategy,
                old(self).left_fresh,
                old(self).right_fresh,
                old(self).last_key_view(),
                cmp,
                right_key@,
            ),
            final(self).strategy == old(self).strategy,
            final(self).left_fresh == (r.advance_left || (old(self).left_fresh && !r.emit_left)),
            final(self).right_fresh == (!r.advance_left || (old(self).right_fresh && !r.emit_right)),
            final(self).last_key_view() == if r.advance_left {
                Some(left_key@)
            } else {
                old(self).last_key_view()
            },
    {
        let carry_match = match &self.last_left_key {
            Some(k) => crate::record::bytes_eq(k, right_key),
            None => false,
        };
        let (le, ge, eq, lt) = match cmp {
            Ordering::Less => (true, false, false, true),
            Ordering::Equal => (true, true, true, false),
            Ordering::Greater => (false, true, false, false),
        };
        let need_read_left = carry_match && !eq;
        let emit_left = match self.strategy {
            MergeStrategy::And => self.left_fresh && eq,
            MergeStrategy::Or => self.left_fresh && le && !need_read_left,
            MergeStrategy::AndNot => self.left_fresh && lt && !need_read_left,
        };
        let emit_right = match self.strategy {
            MergeStrategy::And => self.right_fresh && (eq || carry_match),
            MergeStrategy::Or => self.right_fresh && ge,
            MergeStrategy::AndNot => false,
        };
        let advance_left = le && !need_read_left;
        if emit_left {
            self.left_fresh = false;
        }
        if emit_right {
            self.right_fresh = false;
        }
        if advance_left {
            self.left_fresh = true;
            self.last_left_key = Some(clone_bytes(left_key));
        } else {
            self.right_fresh = true;
        }
        StepDecision { emit_left, emit_right, advance_left }
    }

    /// The right cursor is exhausted: whether the left head is emitted.
    pub fn tail_left(&mut self) -> (r: bool)
        ensures
            r == (drains_left(old(self).strategy) && old(self).left_fresh),
            final(self).strategy == old(self).strategy,
            final(self).left_fresh,
            final(self).right_fresh == old(self).right_fresh,
            final(self).last_key_view() == old(self).last_key_view(),
    {
        let r = self.strategy != MergeStrategy::And && self.left_fresh;
        self.left_fresh = true;
        r
    }

    /// The left cursor is exhausted: whether the right head, keyed
    /// `right_key`, is emitted.
    pub fn tail_right(&mut self, right_key: &Vec<u8>) -> (r: bool)
        ensures
            r == tail_emits_right(old(self).strategy, old(self).right_fresh, old(self).last_key_view(), right_key@),
            final(self).strategy == old(self).strategy,
            final(self).right_fresh,
            final(self).left_fresh == old(self).left_fresh,
            final(self).last_key_view() == old(self).last_key_view(),
    {
        let r = match self.strategy {
            MergeStrategy::Or => self.right_fresh,
            MergeStrategy::And => self.right_fresh && match &self.last_left_key {
                Some(k) => crate::record::bytes_eq(k, right_key),
                None => false,
            },
            MergeStrategy::AndNot => false,
        };
        self.right_fresh = true;
        r
    }
}

/// Whether a right row met after the left input ended is emitted: the union
/// takes every row, the intersection those still matching the last left key
/// passed, the difference none.
pub open spec fn tail_emits_right(
    strategy: MergeStrategy,
    fresh: bool,
    last: Option<Seq<u8>>,
    key: Seq<u8>,
) -> bool {
    match strategy {
        MergeStrategy::Or => fresh,
        MergeStrategy::And => fresh && last == Some(key),
        MergeStrategy::AndNot => false,
    }
}

/// The right rows from `k` on that are emitted once the left input ended.
pub open spec fn right_tail(
    strategy: MergeStrategy,
    rk: Seq<Seq<u8>>,
    last: Option<Seq<u8>>,
    fresh: bool,
    k: int,
) -> Seq<(Side, int)>
    decreases rk.len() - k,
{
    if k < 0 || k >= rk.len() {
        Seq::empty()
    } else {
        (if tail_emits_right(strategy, fresh, last, rk[k]) {
            seq![(Side::Right, k)]
        } else {
            Seq::empty()
        }) + right_tail(strategy, rk, last, true, k + 1)
    }
}

/// The rows of one side from `k` on that a drain emits.
pub open spec fn tail(emit: bool, side: Side, fresh: bool, k: int, n: int) -> Seq<(Side, int)>
    decreases n - k,
{
    if k >= n || !emit {
        Seq::empty()
    } else {
        (if fresh {
            seq![(side, k)]
        } else {
            Seq::empty()
        }) + tail(emit, side, true, k + 1, n)
    }
}

/// The rows the join emits, as (side, index), from heads `i` and `j` on;
/// none when a numeric key does not parse.
pub open spec fn join_from(
    strategy: MergeStrategy,
    numeric: bool,
    lk: Seq<Seq<u8>>,
    rk: Seq<Seq<u8>>,
    left_fresh: bool,
    right_fresh: bool,
    last: Option<Seq<u8>>,
    i: int,
    j: int,
) -> Option<Seq<(Side, int)>>
    decreases lk.len() - i + rk.len() - j,
{
    if 0 <= i < lk.len() && 0 <= j < rk.len() {
        match key_cmp(lk[i], rk[j], numeric) {
            None => None,
            Some(c) => {
                let d = decide(strategy, left_fresh, right_fresh, last, c, rk[j]);
                let now = (if d.emit_left {
                    seq![(Side::Left, i)]
                } else {
                    Seq::empty()
                }) + (if d.emit_right {
                    seq![(Side::Right, j)]
                } else {
                    Seq::empty()
                });
                let rest = if d.advance_left {
                    join_from(
                        strategy,
                        numeric,
                        lk,
                        rk,
                        true,
                        right_fresh && !d.emit_right,
                        Some(lk[i]),
                        i + 1,
                        j,
                    )
                } else {
                    join_from(
                        strategy,
                        numeric,
                        lk,
                        rk,
                        left_fresh && !d.emit_left,
                        true,
                        last,
                        i,
                        j + 1,
                    )
                };
                match rest {
                    Some(r) => Some(now + r),
                    None => None,
                }
            },
        }
    } else {
        Some(
            tail(drains_left(strategy), Side::Left, left_fresh, i, lk.len() as int) + right_tail(
                strategy,
                rk,
                last,
                right_fresh,
                j,
            ),
        )
    }
}

/// The key column of a list of rows.
pub open spec fn key_column(rows: Seq<Seq<Seq<u8>>>, k: int) -> Seq<Seq<u8>> {
    Seq::new(rows.len(), |i: int| rows[i][k])
}

/// The whole join of two row lists keyed at `lk` and `rk`.
pub open spec fn join(
    strategy: MergeStrategy,
    numeric: bool,
    left: Seq<Seq<Seq<u8>>>,
    lk: int,
    right: Seq<Seq<Seq<u8>>>,
    rk: int,
) -> Option<Seq<(Side, int)>> {
    join_from(strategy, numeric, key_column(left, lk), key_column(right, rk), true, true, None, 0, 0)
}

/// The entries that the join hands to deduplication.
pub open spec fn join_entries(
    picks: Seq<(Side, int)>,
    left: Seq<Seq<Seq<u8>>>,
    lk: int,
    right: Seq<Seq<Seq<u8>>>,
    rk: int,
) -> Seq<Entry> {
    picks.map_values(
        |p: (Side, int)|
            match p.0 {
                Side::Left => (left[p.1], left[p.1][lk], Side::Left),
                Side::Right => (right[p.1], right[p.1][rk], Side::Right),
            },
    )
}

/// Every row has a field at `k`.
pub open spec fn keyed(rows: Seq<Seq<Seq<u8>>>, k: int) -> bool {
    forall|i: int| 0 <= i < rows.len() ==> 0 <= k < (#[trigger] rows[i]).len()
}

proof fn lemma_dedup_fold_push(policy: DeduplicateStrategy, numeric: bool, items: Seq<Entry>, e: Entry)
    ensures
        dedup_fold(policy, numeric, items.push(e)) == (
            dedup_fold(policy, numeric, items).0 + add_step(policy, numeric, dedup_fold(policy, numeric, items).1, e).0,
            add_step(policy, numeric, dedup_fold(policy, numeric, items).1, e).1,
        ),
{
    assert(items.push(e).drop_last() =~= items);
}

/// Hands row `idx` of `rows` to the handler, keyed by its field `key`.
fn feed(
    handler: &mut DeduplicateStrategyHandler,
    out: &mut Vec<Vec<Vec<u8>>>,
    rows: &Vec<Vec<Vec<u8>>>,
    idx: usize,
    key: usize,
    side: Side,
    Ghost(items): Ghost<Seq<Entry>>,
)
    requires
        old(handler).wf(),
        dedup_fold(old(handler).policy(), old(handler).numeric(), items) == (rows_view(*old(out)), old(handler).pending()),
        idx < rows.len(),
        key < rows@[idx as int].len(),
    ensures
        final(handler).wf(),
        final(handler).policy() == old(handler).policy(),
        final(handler).numeric() == old(handler).numeric(),
        dedup_fold(
            old(handler).policy(),
            old(handler).numeric(),
            items.push((rows_view(*rows)[idx as int], rows_view(*rows)[idx as int][key as int], side)),
        ) == (rows_view(*final(out)), final(handler).pending()),
{
    let row = clone_row(&rows[idx]);
    let k = clone_bytes(&rows[idx][key]);
    proof {
        lemma_dedup_fold_push(
            handler.policy(),
            handler.numeric(),
            items,
            (rows_view(*rows)[idx as int], rows_view(*rows)[idx as int][key as int], side),
        );
    }
    handler.add_row(row, k, side, out);
}

proof fn lemma_join_entries_push(
    picks: Seq<(Side, int)>,
    x: (Side, int),
    left: Seq<Seq<Seq<u8>>>,
    lk: int,
    right: Seq<Seq<Seq<u8>>>,
    rk: int,
)
    ensures
        join_entries(picks.push(x), left, lk, right, rk) == join_entries(picks, left, lk, right, rk).push(
            match x.0 {
                Side::Left => (left[x.1], left[x.1][lk], Side::Left),
                Side::Right => (right[x.1], right[x.1][rk], Side::Right),
            },
        ),
{
    assert(join_entries(picks.push(x), left, lk, right, rk) =~= join_entries(picks, left, lk, right, rk).push(
        match x.0 {
            Side::Left => (left[x.1], left[x.1][lk], Side::Left),
            Side::Right => (right[x.1], right[x.1][rk], Side::Right),
        },
    ));
}

proof fn lemma_join_from_unfold(
    strategy: MergeStrategy,
    numeric: bool,
    lk: Seq<Seq<u8>>,
    rk: Seq<Seq<u8>>,
    lf: bool,
    rf: bool,
    last: Option<Seq<u8>>,
    i: int,
    j: int,
)
    requires
        0 <= i < lk.len(),
        0 <= j < rk.len(),
    ensures
        key_cmp(lk[i], rk[j], numeric) is None ==> join_from(strategy, numeric, lk, rk, lf, rf, last, i, j) is None,
        key_cmp(lk[i], rk[j], numeric) is Some ==> ({
            let c = key_cmp(lk[i], rk[j], numeric)->Some_0;
            let d = decide(strategy, lf, rf, last, c, rk[j]);
            let now = (if d.emit_left {
                seq![(Side::Left, i)]
            } else {
                Seq::empty()
            }) + (if d.emit_right {
                seq![(Side::Right, j)]
            } else {
                Seq::empty()
            });
            let rest = if d.advance_left {
                join_from(strategy, numeric, lk, rk, true, rf && !d.emit_right, Some(lk[i]), i + 1, j)
            } else {
                join_from(strategy, numeric, lk, rk, lf && !d.emit_left, true, last, i, j + 1)
            };
            join_from(strategy, numeric, lk, rk, lf, rf, last, i, j) == match rest {
                Some(r) => Some(now + r),
                None => None,
            }
        }),
{
}

/// Joins two lists of rows already widened to the output columns, each
/// sorted by its key field, and collapses the runs with `dedup`.
#[verifier::rlimit(80)]
pub fn merge_projected(
    strategy: MergeStrategy,
    dedup: DeduplicateStrategy,
    numeric: bool,
    left: &Vec<Vec<Vec<u8>>>,
    left_key: usize,
    right: &Vec<Vec<Vec<u8>>>,
    right_key: usize,
) -> (r: Result<Vec<Vec<Vec<u8>>>, MergeError>)
    requires
        keyed(rows_view(*left), left_key as int),
        keyed(rows_view(*right), right_key as int),
    ensures
        match join(strategy, numeric, rows_view(*left), left_key as int, rows_view(*right), right_key as int) {
            Some(p) => match r {
                Ok(out) => rows_view(out) == deduplicate(
                    dedup,
                    numeric,
                    join_entries(p, rows_view(*left), left_key as int, rows_view(*right), right_key as int),
                ),
                Err(_) => false,
            },
            None => r == Err::<Vec<Vec<Vec<u8>>>, MergeError>(MergeError::KeyNotNumber),
        },
{
    let ghost lv = rows_view(*left);
    let ghost rv = rows_view(*right);
    let ghost lkc = key_column(lv, left_key as int);
    let ghost rkc = key_column(rv, right_key as int);
    let ghost total = join(strategy, numeric, lv, left_key as int, rv, right_key as int);
    let ghost lk = left_key as int;
    let ghost rk = right_key as int;
    let mut st = MergeJoin::new(strategy);
    let mut handler = DeduplicateStrategy::create(dedup, numeric);
    let mut out: Vec<Vec<Vec<u8>>> = Vec::new();
    let ghost mut emitted: Seq<(Side, int)> = Seq::empty();
    let mut i: usize = 0;
    let mut j: usize = 0;
    assert(join_entries(emitted, lv, lk, rv, rk) =~= Seq::<Entry>::empty());
    assert(rows_view(out) =~= Seq::<Seq<Seq<u8>>>::empty());
    assert(total == match join_from(strategy, numeric, lkc, rkc, true, true, None, 0, 0) {
        Some(x) => Some(emitted + x),
        None => None,
    }) by {
        match join_from(strategy, numeric, lkc, rkc, true, true, None, 0, 0) {
            Some(x) => assert(emitted + x =~= x),
            None => {},
        }
    }
    while i < left.len() && j < right.len()
        invariant
            lv == rows_view(*left),
            rv == rows_view(*right),
            lk == left_key,
            rk == right_key,
            total == join(strategy, numeric, lv, lk, rv, rk),
            lkc == key_column(lv, lk),
            rkc == key_column(rv, rk),
            keyed(lv, lk),
            keyed(rv, rk),
            i <= left.len(),
            j <= right.len(),
            st.strategy == strategy,
            handler.wf(),
            handler.policy() == dedup,
            handler.numeric() == numeric,
            dedup_fold(dedup, numeric, join_entries(emitted, lv, lk, rv, rk)) == (rows_view(out), handler.pending()),
            total == match join_from(
                strategy,
                numeric,
                lkc,
                rkc,
                st.left_fresh,
                st.right_fresh,
                st.last_key_view(),
                i as int,
                j as int,
            ) {
                Some(x) => Some(emitted + x),
                None => None,
            },
        decreases left.len() - i + right.len() - j,
    {
        assert(lv[i as int].len() > lk);
        assert(rv[j as int].len() > rk);
        assert(left@[i as int]@[lk]@ == lkc[i as int]);
        assert(right@[j as int]@[rk]@ == rkc[j as int]);
        proof {
            lemma_join_from_unfold(strategy, numeric, lkc, rkc, st.left_fresh, st.right_fresh, st.last_key_view(), i as int, j as int);
        }
        let c = match compare_keys(&left[i][left_key], &right[j][right_key], numeric) {
            Ok(c) => c,
            Err(e) => {
                assert(key_cmp(lkc[i as int], rkc[j as int], numeric) is None);
                return Err(e);
            },
        };
        let ghost lf = st.left_fresh;
        let ghost rf = st.right_fresh;
        let ghost last = st.last_key_view();
        let d = st.step(c, &left[i][left_key], &right[j][right_key]);
        let ghost now = (if d.emit_left {
            seq![(Side::Left, i as int)]
        } else {
            Seq::empty()
        }) + (if d.emit_right {
            seq![(Side::Right, j as int)]
        } else {
            Seq::empty()
        });
        let ghost e0 = emitted;
        if d.emit_left {
            proof {
                lemma_join_entries_push(emitted, (Side::Left, i as int), lv, lk, rv, rk);
            }
            feed(&mut handler, &mut out, left, i, left_key, Side::Left, Ghost(join_entries(emitted, lv, lk, rv, rk)));
            proof {
                emitted = emitted.push((Side::Left, i as int));
            }
        }
        if d.emit_right {
            proof {
                lemma_join_entries_push(emitted, (Side::Right, j as int), lv, lk, rv, rk);
            }
            feed(&mut handler, &mut out, right, j, right_key, Side::Right, Ghost(join_entries(emitted, lv, lk, rv, rk)));
            proof {
                emitted = emitted.push((Side::Right, j as int));
            }
        }
        assert(emitted =~= e0 + now);
        if d.advance_left {
            i += 1;
        } else {
            j += 1;
        }
        proof {
            match join_from(strategy, numeric, lkc, rkc, st.left_fresh, st.right_fresh, st.last_key_view(), i as int, j as int) {
                Some(x) => {
                    assert(e0 + (now + x) =~= emitted + x);
                },
                None => {},
            }
        }
    }
    let ghost n = left.len() as int;
    let ghost m = right.len() as int;
    assert(total == Some(
        emitted + tail(drains_left(strategy), Side::Left, st.left_fresh, i as int, n) + right_tail(strategy, rkc, st.last_key_view(), st.right_fresh, j as int),
    )) by {
        let t1 = tail(drains_left(strategy), Side::Left, st.left_fresh, i as int, n);
        let t2 = right_tail(strategy, rkc, st.last_key_view(), st.right_fresh, j as int);
        assert(emitted + (t1 + t2) =~= emitted + t1 + t2);
    }
    while i < left.len()
        invariant
            lv == rows_view(*left),
            rv == rows_view(*right),
            lk == left_key,
            rk == right_key,
            total == join(strategy, numeric, lv, lk, rv, rk),
            rkc == key_column(rv, rk),
            keyed(lv, lk),
            keyed(rv, rk),
            n == left.len(),
            m == right.len(),
            i <= left.len(),
            j <= right.len(),
            st.strategy == strategy,
            handler.wf(),
            handler.policy() == dedup,
            handler.numeric() == numeric,
            dedup_fold(dedup, numeric, join_entries(emitted, lv, lk, rv, rk)) == (rows_view(out), handler.pending()),
            total == Some(
                emitted + tail(drains_left(strategy), Side::Left, st.left_fresh, i as int, n) + right_tail(strategy, rkc, st.last_key_view(), st.right_fresh, j as int),
            ),
        decreases left.len() - i,
    {
        let ghost e0 = emitted;
        let ghost t2 = right_tail(strategy, rkc, st.last_key_view(), st.right_fresh, j as int);
        let ghost lf = st.left_fresh;
        assert(lv[i as int].len() > lk);
        if st.tail_left() {
            proof {
                lemma_join_entries_push(emitted, (Side::Left, i as int), lv, lk, rv, rk);
            }
            feed(&mut handler, &mut out, left, i, left_key, Side::Left, Ghost(join_entries(emitted, lv, lk, rv, rk)));
            proof {
                emitted = emitted.push((Side::Left, i as int));
            }
        }
        i += 1;
        proof {
            let t1 = tail(drains_left(strategy), Side::Left, true, i as int, n);
            if drains_left(strategy) {
                if lf {
                    assert(e0 + (seq![(Side::Left, i - 1)] + t1) + t2 =~= emitted + t1 + t2);
                } else {
                    assert(e0 + (Seq::empty() + t1) + t2 =~= emitted + t1 + t2);
                }
            }
        }
    }
    while j < right.len()
        invariant
            lv == rows_view(*left),
            rv == rows_view(*right),
            lk == left_key,
            rk == right_key,
            total == join(strategy, numeric, lv, lk, rv, rk),
            rkc == key_column(rv, rk),
            keyed(lv, lk),
            keyed(rv, rk),
            n == left.len(),
            m == right.len(),
            i == left.len(),
            j <= right.len(),
            st.strategy == strategy,
            handler.wf(),
            handler.policy() == dedup,
            handler.numeric() == numeric,
            dedup_fold(dedup, numeric, join_entries(emitted, lv, lk, rv, rk)) == (rows_view(out), handler.pending()),
            total == Some(
                emitted + tail(drains_left(strategy), Side::Left, st.left_fresh, i as int, n) + right_tail(strategy, rkc, st.last_key_view(), st.right_fresh, j as int),
            ),
        decreases right.len() - j,
    {
        let ghost e0 = emitted;
        let ghost t1 = tail(drains_left(strategy), Side::Left, st.left_fresh, i as int, n);
        let ghost rf = st.right_fresh;
        assert(rv[j as int].len() > rk);
        assert(right@[j as int]@[rk]@ == rkc[j as int]);
        let ghost last = st.last_key_view();
        if st.tail_right(&right[j][right_key]) {
            proof {
                lemma_join_entries_push(emitted, (Side::Right, j as int), lv, lk, rv, rk);
            }
            feed(&mut handler, &mut out, right, j, right_key, Side::Right, Ghost(join_entries(emitted, lv, lk, rv, rk)));
            proof {
                emitted = emitted.push((Side::Right, j as int));
            }
        }
        j += 1;
        proof {
            let t2 = right_tail(strategy, rkc, last, true, j as int);
            assert(t1 =~= Seq::<(Side, int)>::empty());
            if tail_emits_right(strategy, rf, last, rkc[j - 1]) {
                assert(e0 + t1 + (seq![(Side::Right, j - 1)] + t2) =~= emitted + t1 + t2);
            } else {
                assert(e0 + t1 + (Seq::empty() + t2) =~= emitted + t1 + t2);
            }
        }
    }
    proof {
        let t1 = tail(drains_left(strategy), Side::Left, st.left_fresh, i as int, n);
        let t2 = right_tail(strategy, rkc, st.last_key_view(), st.right_fresh, j as int);
        assert(t1 =~= Seq::<(Side, int)>::empty());
        assert(t2 =~= Seq::<(Side, int)>::empty());
        assert(emitted + t1 + t2 =~= emitted);
    }
    handler.flush(&mut out);
    Ok(out)
}

/// Each source row widened to the output columns.
pub open spec fn project_rows(recs: Seq<Seq<Seq<u8>>>, m: Seq<Option<usize>>) -> Seq<Seq<Seq<u8>>> {
    recs.map_values(|r: Seq<Seq<u8>>| project(r, m))
}

/// Widens every source row to the output columns.
pub fn project_all(records: &Vec<Vec<Vec<u8>>>, mapping: &Vec<Option<usize>>) -> (r: Vec<Vec<Vec<u8>>>)
    ensures
        rows_view(r) == project_rows(rows_view(*records), mapping@),
{
    let mut out: Vec<Vec<Vec<u8>>> = Vec::new();
    let mut i: usize = 0;
    while i < records.len()
        invariant
            i <= records.len(),
            rows_view(out) == project_rows(rows_view(*records), mapping@).take(i as int),
        decreases records.len() - i,
    {
        let p = project_row(&records[i], mapping);
        let ghost before = rows_view(out);
        out.push(p);
        assert(rows_view(out) =~= before.push(row_view(p)));
        assert(project_rows(rows_view(*records), mapping@).take(i + 1) =~= project_rows(
            rows_view(*records),
            mapping@,
        ).take(i as int).push(project(rows_view(*records)[i as int], mapping@)));
        i += 1;
    }
    assert(project_rows(rows_view(*records), mapping@).take(records.len() as int) =~= project_rows(
        rows_view(*records),
        mapping@,
    ));
    out
}

/// The rows the merge of two projected tables emits under `l`.
pub open spec fn merged_rows(
    l: MergeLayout,
    strategy: MergeStrategy,
    dedup: DeduplicateStrategy,
    numeric: bool,
    left: Seq<Seq<Seq<u8>>>,
    right: Seq<Seq<Seq<u8>>>,
) -> Option<Seq<Seq<Seq<u8>>>> {
    let lp = project_rows(left, l.left_map@);
    let rp = project_rows(right, l.right_map@);
    match join(strategy, numeric, lp, l.left_key_index as int, rp, l.right_key_index as int) {
        Some(p) => Some(
            deduplicate(dedup, numeric, join_entries(p, lp, l.left_key_index as int, rp, l.right_key_index as int)),
        ),
        None => None,
    }
}

/// A finished merge: the output header row and the data rows.
pub struct MergeOutput {
    pub headers: Vec<Vec<u8>>,
    pub rows: Vec<Vec<Vec<u8>>>,
}

/// One configured merge of two tables.
pub struct Merger {
    pub merge_strategy: MergeStrategy,
    pub deduplicate_strategy: DeduplicateStrategy,
    /// Name of the key column in the left table.
    pub left_key: Vec<u8>,
    /// Name of the key column in the right table.
    pub right_key: Vec<u8>,
    /// Keys compare as signed 64-bit integers rather than as bytes.
    pub number_key: bool,
}

impl Merger {
    pub fn create(
        merge_strategy: MergeStrategy,
        deduplicate_strategy: DeduplicateStrategy,
        left_key: Vec<u8>,
        right_key: Vec<u8>,
        number_key: bool,
    ) -> (r: Merger)
        ensures
            r.merge_strategy == merge_strategy,
            r.deduplicate_strategy == deduplicate_strategy,
            r.left_key@ == left_key@,
            r.right_key@ == right_key@,
            r.number_key == number_key,
    {
        Merger { merge_strategy, deduplicate_strategy, left_key, right_key, number_key }
    }

    /// Merges two tables given by their header lists (`None` for a dropped
    /// column) and their data rows, each sorted by its key column.
    pub fn handle(
        &self,
        left_headers: &Vec<Option<Vec<u8>>>,
        right_headers: &Vec<Option<Vec<u8>>>,
        left_records: &Vec<Vec<Vec<u8>>>,
        right_records: &Vec<Vec<Vec<u8>>>,
    ) -> (r: Result<MergeOutput, MergeError>)
        ensures
            ({
                let lh = headers_view(*left_headers);
                let rh = headers_view(*right_headers);
                if !has_header(lh, self.left_key@) {
                    r == Err::<MergeOutput, MergeError>(MergeError::MissingKeyColumn(Side::Left))
                } else if !has_header(rh, self.right_key@) {
                    r == Err::<MergeOutput, MergeError>(MergeError::MissingKeyColumn(Side::Right))
                } else {
                    exists|l: MergeLayout|
                        {
                            &&& #[trigger] l.describes(lh, rh, self.left_key@, self.right_key@)
                            &&& match merged_rows(
                                l,
                                self.merge_strategy,
                                self.deduplicate_strategy,
                                self.number_key,
                                rows_view(*left_records),
                                rows_view(*right_records),
                            ) {
                                Some(rows) => match r {
                                    Ok(o) => rows_view(o.rows) == rows && o.headers@ == l.output_headers@,
                                    Err(_) => false,
                                },
                                None => r == Err::<MergeOutput, MergeError>(MergeError::KeyNotNumber),
                            }
                        }
                }
            }),
    {
        let layout = match MergeLayout::build(left_headers, right_headers, &self.left_key, &self.right_key) {
            Ok(l) => l,
            Err(e) => {
                return Err(e);
            },
        };
        let left = project_all(left_records, &layout.left_map);
        let right = project_all(right_records, &layout.right_map);
        assert(keyed(rows_view(left), layout.left_key_index as int));
        assert(keyed(rows_view(right), layout.right_key_index as int));
        let rows = match merge_projected(
            self.merge_strategy,
            self.deduplicate_strategy,
            self.number_key,
            &left,
            layout.left_key_index,
            &right,
            layout.right_key_index,
        ) {
            Ok(rows) => rows,
            Err(e) => {
                return Err(e);
            },
        };
        let ghost l = layout;
        let out = MergeOutput { headers: layout.output_headers, rows };
        assert(l.describes(headers_view(*left_headers), headers_view(*right_headers), self.left_key@, self.right_key@));
        Ok(out)
    }
}

/// The rows that a list of picks names.
pub open spec fn picked_rows(
    picks: Seq<(Side, int)>,
    left: Seq<Seq<Seq<u8>>>,
    right: Seq<Seq<Seq<u8>>>,
) -> Seq<Seq<Seq<u8>>> {
    picks.map_values(
        |p: (Side, int)|
            match p.0 {
                Side::Left => left[p.1],
                Side::Right => right[p.1],
            },
    )
}

/// Every pick names a row that exists.
pub open spec fn picks_in_bounds(picks: Seq<(Side, int)>, n: int, m: int) -> bool {
    forall|k: int|
        0 <= k < picks.len() ==> {
            let p = #[trigger] picks[k];
            0 <= p.1 && match p.0 {
                Side::Left => p.1 < n,
                Side::Right => p.1 < m,
            }
        }
}

/// Keys sorted non-decreasingly under the comparator (all of them comparable).
pub open spec fn sorted_keys(ks: Seq<Seq<u8>>, numeric: bool) -> bool {
    forall|a: int, b: int|
        0 <= a < b < ks.len() ==> #[trigger] key_cmp(ks[a], ks[b], numeric) is Some && key_cmp(
            ks[a],
            ks[b],
            numeric,
        )->Some_0 != Ordering::Greater
}

proof fn lemma_tail_bounds(emit: bool, side: Side, fresh: bool, k: int, n: int, m: int)
    requires
        0 <= k,
        side == Side::Left ==> n <= m,
        side == Side::Right ==> n <= m,
    ensures
        forall|t: int|
            0 <= t < tail(emit, side, fresh, k, n).len() ==> {
                let p = #[trigger] tail(emit, side, fresh, k, n)[t];
                p.0 == side && k <= p.1 < n
            },
    decreases n - k,
{
    if k < n && emit {
        lemma_tail_bounds(emit, side, true, k + 1, n, m);
        let rest = tail(emit, side, true, k + 1, n);
        let head: Seq<(Side, int)> = if fresh {
            seq![(side, k)]
        } else {
            Seq::empty()
        };
        assert forall|t: int| 0 <= t < (head + rest).len() implies {
            let p = #[trigger] (head + rest)[t];
            p.0 == side && k <= p.1 < n
        } by {
            if t >= head.len() {
                assert((head + rest)[t] == rest[t - head.len()]);
            }
        }
    }
}

proof fn lemma_right_tail_bounds(strategy: MergeStrategy, rk: Seq<Seq<u8>>, last: Option<Seq<u8>>, fresh: bool, k: int)
    requires
        0 <= k,
    ensures
        forall|t: int|
            0 <= t < right_tail(strategy, rk, last, fresh, k).len() ==> {
                let p = #[trigger] right_tail(strategy, rk, last, fresh, k)[t];
                p.0 == Side::Right && k <= p.1 < rk.len()
            },
    decreases rk.len() - k,
{
    if k < rk.len() {
        lemma_right_tail_bounds(strategy, rk, last, true, k + 1);
        let rest = right_tail(strategy, rk, last, true, k + 1);
        let head: Seq<(Side, int)> = if tail_emits_right(strategy, fresh, last, rk[k]) {
            seq![(Side::Right, k)]
        } else {
            Seq::empty()
        };
        assert forall|t: int| 0 <= t < (head + rest).len() implies {
            let p = #[trigger] (head + rest)[t];
            p.0 == Side::Right && k <= p.1 < rk.len()
        } by {
            if t >= head.len() {
                assert((head + rest)[t] == rest[t - head.len()]);
            }
        }
    }
}

proof fn lemma_right_tail_or(rk: Seq<Seq<u8>>, last: Option<Seq<u8>>, fresh: bool, k: int)
    requires
        0 <= k,
    ensures
        right_tail(MergeStrategy::Or, rk, last, fresh, k) == tail(true, Side::Right, fresh, k, rk.len() as int),
    decreases rk.len() - k,
{
    if k < rk.len() {
        lemma_right_tail_or(rk, last, true, k + 1);
    }
}

proof fn lemma_right_tail_and_not(rk: Seq<Seq<u8>>, last: Option<Seq<u8>>, fresh: bool, k: int)
    requires
        0 <= k,
    ensures
        right_tail(MergeStrategy::AndNot, rk, last, fresh, k) == Seq::<(Side, int)>::empty(),
    decreases rk.len() - k,
{
    if k < rk.len() {
        lemma_right_tail_and_not(rk, last, true, k + 1);
        assert(Seq::<(Side, int)>::empty() + Seq::<(Side, int)>::empty() =~= Seq::<(Side, int)>::empty());
    }
}

proof fn lemma_concat_bounds(a: Seq<(Side, int)>, b: Seq<(Side, int)>, n: int, m: int)
    requires
        picks_in_bounds(a, n, m),
        picks_in_bounds(b, n, m),
    ensures
        picks_in_bounds(a + b, n, m),
{
    assert forall|k: int| 0 <= k < (a + b).len() implies {
        let p = #[trigger] (a + b)[k];
        0 <= p.1 && match p.0 {
            Side::Left => p.1 < n,
            Side::Right => p.1 < m,
        }
    } by {
        if k < a.len() {
            assert((a + b)[k] == a[k]);
        } else {
            assert((a + b)[k] == b[k - a.len()]);
        }
    }
}

proof fn lemma_join_from_bounds(
    strategy: MergeStrategy,
    numeric: bool,
    lk: Seq<Seq<u8>>,
    rk: Seq<Seq<u8>>,
    lf: bool,
    rf: bool,
    last: Option<Seq<u8>>,
    i: int,
    j: int,
)
    requires
        0 <= i <= lk.len(),
        0 <= j <= rk.len(),
    ensures
        match join_from(strategy, numeric, lk, rk, lf, rf, last, i, j) {
            Some(p) => picks_in_bounds(p, lk.len() as int, rk.len() as int),
            None => true,
        },
    decreases lk.len() - i + rk.len() - j,
{
    let n = lk.len() as int;
    let m = rk.len() as int;
    if i < n && j < m {
        lemma_join_from_unfold(strategy, numeric, lk, rk, lf, rf, last, i, j);
        match key_cmp(lk[i], rk[j], numeric) {
            None => {},
            Some(c) => {
                let d = decide(strategy, lf, rf, last, c, rk[j]);
                if d.advance_left {
                    lemma_join_from_bounds(strategy, numeric, lk, rk, true, rf && !d.emit_right, Some(lk[i]), i + 1, j);
                } else {
                    lemma_join_from_bounds(strategy, numeric, lk, rk, lf && !d.emit_left, true, last, i, j + 1);
                }
                let a: Seq<(Side, int)> = if d.emit_left {
                    seq![(Side::Left, i)]
                } else {
                    Seq::empty()
                };
                let b: Seq<(Side, int)> = if d.emit_right {
                    seq![(Side::Right, j)]
                } else {
                    Seq::empty()
                };
                lemma_concat_bounds(a, b, n, m);
                let rest = if d.advance_left {
                    join_from(strategy, numeric, lk, rk, true, rf && !d.emit_right, Some(lk[i]), i + 1, j)
                } else {
                    join_from(strategy, numeric, lk, rk, lf && !d.emit_left, true, last, i, j + 1)
                };
                if rest is Some {
                    lemma_concat_bounds(a + b, rest->Some_0, n, m);
                }
            },
        }
    } else {
        lemma_tail_bounds(drains_left(strategy), Side::Left, lf, i, n, n);
        lemma_right_tail_bounds(strategy, rk, last, rf, j);
        let t1 = tail(drains_left(strategy), Side::Left, lf, i, n);
        let t2 = right_tail(strategy, rk, last, rf, j);
        assert(picks_in_bounds(t1, n, m));
        assert(picks_in_bounds(t2, n, m));
        lemma_concat_bounds(t1, t2, n, m);
    }
}

/// Under keep-all the output is exactly the rows the join picked, in order.
pub proof fn law_keep_all_emits_joined_rows(
    numeric: bool,
    picks: Seq<(Side, int)>,
    left: Seq<Seq<Seq<u8>>>,
    lk: int,
    right: Seq<Seq<Seq<u8>>>,
    rk: int,
)
    ensures
        deduplicate(DeduplicateStrategy::KeepAll, numeric, join_entries(picks, left, lk, right, rk)) == picked_rows(
            picks,
            left,
            right,
        ),
{
    law_keep_all_passes_rows(numeric, join_entries(picks, left, lk, right, rk));
    assert(entry_rows(join_entries(picks, left, lk, right, rk)) =~= picked_rows(picks, left, right));
}

/// Every row that a merge emits has one field per output column.
pub proof fn law_output_width(
    l: MergeLayout,
    strategy: MergeStrategy,
    dedup: DeduplicateStrategy,
    numeric: bool,
    left: Seq<Seq<Seq<u8>>>,
    right: Seq<Seq<Seq<u8>>>,
)
    requires
        l.left_map@.len() == l.output_headers@.len(),
        l.right_map@.len() == l.output_headers@.len(),
        l.left_key_index < l.output_headers@.len(),
        l.right_key_index < l.output_headers@.len(),
    ensures
        match merged_rows(l, strategy, dedup, numeric, left, right) {
            Some(rows) => all_width(rows, l.output_headers@.len() as int),
            None => true,
        },
{
    let w = l.output_headers@.len() as int;
    let lp = project_rows(left, l.left_map@);
    let rp = project_rows(right, l.right_map@);
    let lki = l.left_key_index as int;
    let rki = l.right_key_index as int;
    let lkc = key_column(lp, lki);
    let rkc = key_column(rp, rki);
    lemma_join_from_bounds(strategy, numeric, lkc, rkc, true, true, None, 0, 0);
    match join(strategy, numeric, lp, lki, rp, rki) {
        Some(p) => {
            let es = join_entries(p, lp, lki, rp, rki);
            assert forall|k: int| 0 <= k < entry_rows(es).len() implies (#[trigger] entry_rows(es)[k]).len() == w by {
                let x = p[k];
                assert(picks_in_bounds(p, lkc.len() as int, rkc.len() as int));
            }
            law_rows_keep_width(dedup, numeric, es, w);
        },
        None => {},
    }
}

/// The comparator is antisymmetric: swapping the keys flips the answer.
pub proof fn lemma_key_cmp_flip(a: Seq<u8>, b: Seq<u8>, numeric: bool)
    ensures
        key_cmp(a, b, numeric) is Some == key_cmp(b, a, numeric) is Some,
        key_cmp(a, b, numeric) == Some(Ordering::Less) <==> key_cmp(b, a, numeric) == Some(Ordering::Greater),
        key_cmp(a, b, numeric) == Some(Ordering::Equal) <==> key_cmp(b, a, numeric) == Some(Ordering::Equal),
        key_cmp(a, b, numeric) == Some(Ordering::Greater) <==> key_cmp(b, a, numeric) == Some(Ordering::Less),
{
    if !numeric {
        lemma_bytes_lt_asymmetric(a, b);
        lemma_bytes_lt_asymmetric(b, a);
        lemma_bytes_lt_irreflexive(a);
        lemma_bytes_lt_total(a, b);
    }
}

proof fn lemma_tail_contains(side: Side, fresh: bool, k: int, n: int)
    requires
        0 <= k,
    ensures
        forall|t: int| k < t < n ==> tail(true, side, fresh, k, n).contains((side, t)),
        fresh && 0 <= k < n ==> tail(true, side, fresh, k, n).contains((side, k)),
    decreases n - k,
{
    if k < n {
        lemma_tail_contains(side, true, k + 1, n);
        let rest = tail(true, side, true, k + 1, n);
        let head: Seq<(Side, int)> = if fresh {
            seq![(side, k)]
        } else {
            Seq::empty()
        };
        assert forall|t: int| k < t < n implies tail(true, side, fresh, k, n).contains((side, t)) by {
            lemma_concat_contains(head, rest, (side, t));
        }
        if fresh {
            lemma_concat_contains(head, rest, (side, k));
            assert(head[0] == (side, k));
        }
    }
}

proof fn lemma_or_covers(
    numeric: bool,
    lk: Seq<Seq<u8>>,
    rk: Seq<Seq<u8>>,
    lf: bool,
    rf: bool,
    last: Option<Seq<u8>>,
    i: int,
    j: int,
)
    requires
        0 <= i <= lk.len(),
        0 <= j <= rk.len(),
        sorted_keys(lk, numeric),
        last is None || (i >= 1 && last == Some(lk[i - 1])),
        join_from(MergeStrategy::Or, numeric, lk, rk, lf, rf, last, i, j) is Some,
    ensures
        ({
            let p = join_from(MergeStrategy::Or, numeric, lk, rk, lf, rf, last, i, j)->Some_0;
            &&& forall|t: int| i < t < lk.len() ==> p.contains((Side::Left, t))
            &&& lf && i < lk.len() ==> p.contains((Side::Left, i))
            &&& forall|t: int| j < t < rk.len() ==> p.contains((Side::Right, t))
            &&& rf && j < rk.len() ==> p.contains((Side::Right, j))
        }),
    decreases lk.len() - i + rk.len() - j,
{
    let n = lk.len() as int;
    let m = rk.len() as int;
    let p = join_from(MergeStrategy::Or, numeric, lk, rk, lf, rf, last, i, j)->Some_0;
    if i < n && j < m {
        lemma_join_from_unfold(MergeStrategy::Or, numeric, lk, rk, lf, rf, last, i, j);
        let c = key_cmp(lk[i], rk[j], numeric)->Some_0;
        let d = decide(MergeStrategy::Or, lf, rf, last, c, rk[j]);
        let a: Seq<(Side, int)> = if d.emit_left {
            seq![(Side::Left, i)]
        } else {
            Seq::empty()
        };
        let b: Seq<(Side, int)> = if d.emit_right {
            seq![(Side::Right, j)]
        } else {
            Seq::empty()
        };
        let now = a + b;
        if d.emit_left {
            lemma_concat_contains(a, b, (Side::Left, i));
            assert(a[0] == (Side::Left, i));
        }
        if d.emit_right {
            lemma_concat_contains(a, b, (Side::Right, j));
            assert(b[0] == (Side::Right, j));
        }
        if d.advance_left {
            let rest = join_from(MergeStrategy::Or, numeric, lk, rk, true, rf && !d.emit_right, Some(lk[i]), i + 1, j)->Some_0;
            lemma_or_covers(numeric, lk, rk, true, rf && !d.emit_right, Some(lk[i]), i + 1, j);
            assert(p == now + rest);
            assert forall|t: int| i < t < n implies p.contains((Side::Left, t)) by {
                lemma_concat_contains(now, rest, (Side::Left, t));
            }
            assert forall|t: int| j < t < m implies p.contains((Side::Right, t)) by {
                lemma_concat_contains(now, rest, (Side::Right, t));
            }
            lemma_concat_contains(now, rest, (Side::Left, i));
            lemma_concat_contains(now, rest, (Side::Right, j));
        } else {
            if rf {
                if last == Some(rk[j]) && c != Ordering::Equal {
                    assert(key_cmp(lk[i - 1], lk[i], numeric) is Some);
                    lemma_key_cmp_flip(lk[i - 1], lk[i], numeric);
                }
                assert(d.emit_right);
            }
            let rest = join_from(MergeStrategy::Or, numeric, lk, rk, lf && !d.emit_left, true, last, i, j + 1)->Some_0;
            lemma_or_covers(numeric, lk, rk, lf && !d.emit_left, true, last, i, j + 1);
            assert(p == now + rest);
            assert forall|t: int| i < t < n implies p.contains((Side::Left, t)) by {
                lemma_concat_contains(now, rest, (Side::Left, t));
            }
            assert forall|t: int| j < t < m implies p.contains((Side::Right, t)) by {
                lemma_concat_contains(now, rest, (Side::Right, t));
            }
            lemma_concat_contains(now, rest, (Side::Left, i));
            lemma_concat_contains(now, rest, (Side::Right, j));
        }
    } else {
        let t1 = tail(true, Side::Left, lf, i, n);
        let t2 = tail(true, Side::Right, rf, j, m);
        lemma_right_tail_or(rk, last, rf, j);
        lemma_tail_contains(Side::Left, lf, i, n);
        lemma_tail_contains(Side::Right, rf, j, m);
        assert(p == t1 + t2);
        assert forall|t: int| i < t < n implies p.contains((Side::Left, t)) by {
            lemma_concat_contains(t1, t2, (Side::Left, t));
        }
        assert forall|t: int| j < t < m implies p.contains((Side::Right, t)) by {
            lemma_concat_contains(t1, t2, (Side::Right, t));
        }
        lemma_concat_contains(t1, t2, (Side::Left, i));
        lemma_concat_contains(t1, t2, (Side::Right, j));
    }
}

proof fn lemma_picked_within(
    picks: Seq<(Side, int)>,
    left: Seq<Seq<Seq<u8>>>,
    right: Seq<Seq<Seq<u8>>>,
    x: Seq<Seq<u8>>,
)
    requires
        picks_in_bounds(picks, left.len() as int, right.len() as int),
        picked_rows(picks, left, right).contains(x),
    ensures
        left.contains(x) || right.contains(x),
{
    let k = choose|k: int| 0 <= k < picked_rows(picks, left, right).len() && picked_rows(picks, left, right)[k] == x;
    let q = picks[k];
    match q.0 {
        Side::Left => assert(left[q.1] == x),
        Side::Right => assert(right[q.1] == x),
    }
}

proof fn lemma_picked_has(
    picks: Seq<(Side, int)>,
    left: Seq<Seq<Seq<u8>>>,
    right: Seq<Seq<Seq<u8>>>,
    q: (Side, int),
)
    requires
        picks.contains(q),
    ensures
        picked_rows(picks, left, right).contains(
            match q.0 {
                Side::Left => left[q.1],
                Side::Right => right[q.1],
            },
        ),
{
    let k = choose|k: int| 0 <= k < picks.len() && picks[k] == q;
    assert(picked_rows(picks, left, right)[k] == match q.0 {
        Side::Left => left[q.1],
        Side::Right => right[q.1],
    });
}

/// With the left input sorted, the union emits each row of both inputs, and
/// nothing else.
pub proof fn law_or_emits_every_row(
    numeric: bool,
    left: Seq<Seq<Seq<u8>>>,
    lk: int,
    right: Seq<Seq<Seq<u8>>>,
    rk: int,
)
    requires
        sorted_keys(key_column(left, lk), numeric),
        join(MergeStrategy::Or, numeric, left, lk, right, rk) is Some,
    ensures
        forall|x: Seq<Seq<u8>>|
            picked_rows(join(MergeStrategy::Or, numeric, left, lk, right, rk)->Some_0, left, right).contains(x)
                == (left.contains(x) || right.contains(x)),
{
    let lkc = key_column(left, lk);
    let rkc = key_column(right, rk);
    let p = join(MergeStrategy::Or, numeric, left, lk, right, rk)->Some_0;
    lemma_or_covers(numeric, lkc, rkc, true, true, None, 0, 0);
    lemma_join_from_bounds(MergeStrategy::Or, numeric, lkc, rkc, true, true, None, 0, 0);
    assert forall|x: Seq<Seq<u8>>| picked_rows(p, left, right).contains(x) == (left.contains(x) || right.contains(x)) by {
        if picked_rows(p, left, right).contains(x) {
            lemma_picked_within(p, left, right, x);
        }
        if left.contains(x) {
            let t = choose|t: int| 0 <= t < left.len() && left[t] == x;
            assert(p.contains((Side::Left, t)));
            lemma_picked_has(p, left, right, (Side::Left, t));
        }
        if right.contains(x) {
            let t = choose|t: int| 0 <= t < right.len() && right[t] == x;
            assert(p.contains((Side::Right, t)));
            lemma_picked_has(p, left, right, (Side::Right, t));
        }
    }
}

/// Every row the intersection emits, the union emits too.
pub proof fn law_and_within_or(
    numeric: bool,
    left: Seq<Seq<Seq<u8>>>,
    lk: int,
    right: Seq<Seq<Seq<u8>>>,
    rk: int,
)
    requires
        sorted_keys(key_column(left, lk), numeric),
        join(MergeStrategy::And, numeric, left, lk, right, rk) is Some,
        join(MergeStrategy::Or, numeric, left, lk, right, rk) is Some,
    ensures
        forall|x: Seq<Seq<u8>>|
            picked_rows(join(MergeStrategy::And, numeric, left, lk, right, rk)->Some_0, left, right).contains(x)
                ==> picked_rows(join(MergeStrategy::Or, numeric, left, lk, right, rk)->Some_0, left, right).contains(x),
{
    let pa = join(MergeStrategy::And, numeric, left, lk, right, rk)->Some_0;
    lemma_join_from_bounds(MergeStrategy::And, numeric, key_column(left, lk), key_column(right, rk), true, true, None, 0, 0);
    law_or_emits_every_row(numeric, left, lk, right, rk);
    assert forall|x: Seq<Seq<u8>>| picked_rows(pa, left, right).contains(x) implies picked_rows(
        join(MergeStrategy::Or, numeric, left, lk, right, rk)->Some_0,
        left,
        right,
    ).contains(x) by {
        lemma_picked_within(pa, left, right, x);
    }
}

/// Swapping the two inputs of a union keeps the set of rows it emits.
pub proof fn law_or_swap_symmetric(
    numeric: bool,
    left: Seq<Seq<Seq<u8>>>,
    lk: int,
    right: Seq<Seq<Seq<u8>>>,
    rk: int,
)
    requires
        sorted_keys(key_column(left, lk), numeric),
        sorted_keys(key_column(right, rk), numeric),
        join(MergeStrategy::Or, numeric, left, lk, right, rk) is Some,
        join(MergeStrategy::Or, numeric, right, rk, left, lk) is Some,
    ensures
        forall|x: Seq<Seq<u8>>|
            picked_rows(join(MergeStrategy::Or, numeric, left, lk, right, rk)->Some_0, left, right).contains(x)
                == picked_rows(join(MergeStrategy::Or, numeric, right, rk, left, lk)->Some_0, right, left).contains(x),
{
    law_or_emits_every_row(numeric, left, lk, right, rk);
    law_or_emits_every_row(numeric, right, rk, left, lk);
    let p = join(MergeStrategy::Or, numeric, left, lk, right, rk)->Some_0;
    let q = join(MergeStrategy::Or, numeric, right, rk, left, lk)->Some_0;
    assert forall|x: Seq<Seq<u8>>| picked_rows(p, left, right).contains(x) == picked_rows(q, right, left).contains(x) by {
        assert(picked_rows(p, left, right).contains(x) == (left.contains(x) || right.contains(x)));
        assert(picked_rows(q, right, left).contains(x) == (right.contains(x) || left.contains(x)));
    }
}

/// A key below a second key that is at most a third is below the third.
pub proof fn lemma_key_lt_trans(a: Seq<u8>, b: Seq<u8>, c: Seq<u8>, numeric: bool)
    requires
        key_cmp(a, b, numeric) == Some(Ordering::Less),
        key_cmp(b, c, numeric) is Some,
        key_cmp(b, c, numeric) != Some(Ordering::Greater),
    ensures
        key_cmp(a, c, numeric) == Some(Ordering::Less),
{
    if !numeric {
        if b != c {
            lemma_bytes_lt_transitive(a, b, c);
        }
    }
}

proof fn lemma_and_not_picks(
    numeric: bool,
    lk: Seq<Seq<u8>>,
    rk: Seq<Seq<u8>>,
    lf: bool,
    rf: bool,
    last: Option<Seq<u8>>,
    i: int,
    j: int,
)
    requires
        0 <= i <= lk.len(),
        0 <= j <= rk.len(),
        sorted_keys(lk, numeric),
        sorted_keys(rk, numeric),
        last is None || (i >= 1 && last == Some(lk[i - 1])),
        i < lk.len() ==> forall|r: int| 0 <= r < j ==> #[trigger] key_cmp(rk[r], lk[i], numeric) == Some(Ordering::Less),
        join_from(MergeStrategy::AndNot, numeric, lk, rk, lf, rf, last, i, j) is Some,
    ensures
        ({
            let p = join_from(MergeStrategy::AndNot, numeric, lk, rk, lf, rf, last, i, j)->Some_0;
            forall|k: int|
                0 <= k < p.len() ==> {
                    &&& (#[trigger] p[k]).0 == Side::Left
                    &&& i <= p[k].1 < lk.len()
                    &&& forall|r: int| 0 <= r < rk.len() ==> key_cmp(lk[p[k].1], rk[r], numeric) != Some(Ordering::Equal)
                }
        }),
    decreases lk.len() - i + rk.len() - j,
{
    let n = lk.len() as int;
    let m = rk.len() as int;
    let p = join_from(MergeStrategy::AndNot, numeric, lk, rk, lf, rf, last, i, j)->Some_0;
    if i < n && j < m {
        lemma_join_from_unfold(MergeStrategy::AndNot, numeric, lk, rk, lf, rf, last, i, j);
        let c = key_cmp(lk[i], rk[j], numeric)->Some_0;
        let d = decide(MergeStrategy::AndNot, lf, rf, last, c, rk[j]);
        let now: Seq<(Side, int)> = if d.emit_left {
            seq![(Side::Left, i)]
        } else {
            Seq::empty()
        };
        assert(now + Seq::<(Side, int)>::empty() =~= now);
        if d.emit_left {
            assert forall|r: int| 0 <= r < m implies key_cmp(lk[i], rk[r], numeric) != Some(Ordering::Equal) by {
                if r < j {
                    assert(key_cmp(rk[r], lk[i], numeric) == Some(Ordering::Less));
                    lemma_key_cmp_flip(rk[r], lk[i], numeric);
                } else if r > j {
                    assert(key_cmp(rk[j], rk[r], numeric) is Some);
                    lemma_key_lt_trans(lk[i], rk[j], rk[r], numeric);
                }
            }
        }
        if d.advance_left {
            if i + 1 < n {
                assert forall|r: int| 0 <= r < j implies #[trigger] key_cmp(rk[r], lk[i + 1], numeric) == Some(
                    Ordering::Less,
                ) by {
                    assert(key_cmp(lk[i], lk[i + 1], numeric) is Some);
                    lemma_key_lt_trans(rk[r], lk[i], lk[i + 1], numeric);
                }
            }
            lemma_and_not_picks(numeric, lk, rk, true, rf && !d.emit_right, Some(lk[i]), i + 1, j);
            let rest = join_from(MergeStrategy::AndNot, numeric, lk, rk, true, rf && !d.emit_right, Some(lk[i]), i + 1, j)->Some_0;
            assert(p == now + rest);
            assert forall|k: int| 0 <= k < p.len() implies {
                &&& (#[trigger] p[k]).0 == Side::Left
                &&& i <= p[k].1 < lk.len()
                &&& forall|r: int| 0 <= r < rk.len() ==> key_cmp(lk[p[k].1], rk[r], numeric) != Some(Ordering::Equal)
            } by {
                if k >= now.len() {
                    assert(p[k] == rest[k - now.len()]);
                }
            }
        } else {
            if last == Some(rk[j]) && c != Ordering::Equal {
                assert(key_cmp(lk[i - 1], lk[i], numeric) is Some);
                lemma_key_cmp_flip(lk[i - 1], lk[i], numeric);
            }
            lemma_key_cmp_flip(lk[i], rk[j], numeric);
            assert forall|r: int| 0 <= r < j + 1 implies #[trigger] key_cmp(rk[r], lk[i], numeric) == Some(
                Ordering::Less,
            ) by {}
            lemma_and_not_picks(numeric, lk, rk, lf && !d.emit_left, true, last, i, j + 1);
            let rest = join_from(MergeStrategy::AndNot, numeric, lk, rk, lf && !d.emit_left, true, last, i, j + 1)->Some_0;
            assert(p == now + rest);
            assert forall|k: int| 0 <= k < p.len() implies {
                &&& (#[trigger] p[k]).0 == Side::Left
                &&& i <= p[k].1 < lk.len()
                &&& forall|r: int| 0 <= r < rk.len() ==> key_cmp(lk[p[k].1], rk[r], numeric) != Some(Ordering::Equal)
            } by {
                if k >= now.len() {
                    assert(p[k] == rest[k - now.len()]);
                }
            }
        }
    } else {
        let t1 = tail(true, Side::Left, lf, i, n);
        let t2 = right_tail(MergeStrategy::AndNot, rk, last, rf, j);
        lemma_right_tail_and_not(rk, last, rf, j);
        assert(p =~= t1);
        lemma_tail_bounds(true, Side::Left, lf, i, n, n);
        assert forall|k: int| 0 <= k < p.len() implies {
            &&& (#[trigger] p[k]).0 == Side::Left
            &&& i <= p[k].1 < lk.len()
            &&& forall|r: int| 0 <= r < rk.len() ==> key_cmp(lk[p[k].1], rk[r], numeric) != Some(Ordering::Equal)
        } by {
            let t = p[k].1;
            assert(t1[k] == p[k]);
            assert forall|r: int| 0 <= r < rk.len() implies key_cmp(lk[t], rk[r], numeric) != Some(Ordering::Equal) by {
                assert(j == m);
                assert(key_cmp(rk[r], lk[i], numeric) == Some(Ordering::Less));
                if t > i {
                    assert(key_cmp(lk[i], lk[t], numeric) is Some);
                    lemma_key_lt_trans(rk[r], lk[i], lk[t], numeric);
                }
                lemma_key_cmp_flip(rk[r], lk[t], numeric);
            }
        }
    }
}

/// The left difference emits only left rows, and none whose key compares
/// equal to a key of the right input.
pub proof fn law_and_not_excludes_right_keys(
    numeric: bool,
    left: Seq<Seq<Seq<u8>>>,
    lk: int,
    right: Seq<Seq<Seq<u8>>>,
    rk: int,
)
    requires
        sorted_keys(key_column(left, lk), numeric),
        sorted_keys(key_column(right, rk), numeric),
        join(MergeStrategy::AndNot, numeric, left, lk, right, rk) is Some,
    ensures
        ({
            let p = join(MergeStrategy::AndNot, numeric, left, lk, right, rk)->Some_0;
            forall|k: int|
                0 <= k < p.len() ==> {
                    &&& (#[trigger] p[k]).0 == Side::Left
                    &&& 0 <= p[k].1 < left.len()
                    &&& forall|r: int|
                        0 <= r < right.len() ==> key_cmp(left[p[k].1][lk], right[r][rk], numeric) != Some(
                            Ordering::Equal,
                        )
                }
        }),
{
    let lkc = key_column(left, lk);
    let rkc = key_column(right, rk);
    lemma_and_not_picks(numeric, lkc, rkc, true, true, None, 0, 0);
    let p = join(MergeStrategy::AndNot, numeric, left, lk, right, rk)->Some_0;
    assert forall|k: int| 0 <= k < p.len() implies {
        &&& (#[trigger] p[k]).0 == Side::Left
        &&& 0 <= p[k].1 < left.len()
        &&& forall|r: int|
            0 <= r < right.len() ==> key_cmp(left[p[k].1][lk], right[r][rk], numeric) != Some(Ordering::Equal)
    } by {
        assert forall|r: int| 0 <= r < right.len() implies key_cmp(left[p[k].1][lk], right[r][rk], numeric) != Some(
            Ordering::Equal,
        ) by {
            assert(lkc[p[k].1] == left[p[k].1][lk]);
            assert(rkc[r] == right[r][rk]);
        }
    }
}

/// Whatever the deduplication policy, the left difference emits no row whose
/// key field compares equal to a key of the right input.
pub proof fn law_and_not_output_excludes_right_keys(
    policy: DeduplicateStrategy,
    numeric: bool,
    left: Seq<Seq<Seq<u8>>>,
    lk: int,
    right: Seq<Seq<Seq<u8>>>,
    rk: int,
)
    requires
        0 <= lk,
        keyed(left, lk),
        sorted_keys(key_column(left, lk), numeric),
        sorted_keys(key_column(right, rk), numeric),
        join(MergeStrategy::AndNot, numeric, left, lk, right, rk) is Some,
    ensures
        ({
            let p = join(MergeStrategy::AndNot, numeric, left, lk, right, rk)->Some_0;
            let out = deduplicate(policy, numeric, join_entries(p, left, lk, right, rk));
            forall|b: int|
                0 <= b < out.len() ==> {
                    &&& 0 <= lk < (#[trigger] out[b]).len()
                    &&& forall|r: int|
                        0 <= r < right.len() ==> key_cmp(out[b][lk], right[r][rk], numeric) != Some(
                            Ordering::Equal,
                        )
                }
        }),
{
    let p = join(MergeStrategy::AndNot, numeric, left, lk, right, rk)->Some_0;
    let es = join_entries(p, left, lk, right, rk);
    let ok = |key: Seq<u8>|
        forall|r: int| 0 <= r < right.len() ==> key_cmp(key, right[r][rk], numeric) != Some(Ordering::Equal);
    law_and_not_excludes_right_keys(numeric, left, lk, right, rk);
    assert forall|a: int| 0 <= a < es.len() implies entry_key_ok(#[trigger] es[a], lk, ok) by {
        let q = p[a];
        assert(q.0 == Side::Left);
        assert(0 <= q.1 < left.len());
        assert(es[a] == (left[q.1], left[q.1][lk], Side::Left));
    }
    law_keys_survive(policy, numeric, es, lk, ok);
    let out = deduplicate(policy, numeric, es);
    assert forall|b: int| 0 <= b < out.len() implies {
        &&& 0 <= lk < (#[trigger] out[b]).len()
        &&& forall|r: int| 0 <= r < right.len() ==> key_cmp(out[b][lk], right[r][rk], numeric) != Some(Ordering::Equal)
    } by {
        assert(row_key_ok(out[b], lk, ok));
    }
}

/// When both inputs resolve their key to the same output column `k`, every
/// row that a merge emits, under any policy, holds at `k` the key of one of
/// the rows it was built from.
pub proof fn law_output_key_column(
    policy: DeduplicateStrategy,
    strategy: MergeStrategy,
    numeric: bool,
    left: Seq<Seq<Seq<u8>>>,
    right: Seq<Seq<Seq<u8>>>,
    k: int,
)
    requires
        0 <= k,
        keyed(left, k),
        keyed(right, k),
        join(strategy, numeric, left, k, right, k) is Some,
    ensures
        ({
            let p = join(strategy, numeric, left, k, right, k)->Some_0;
            let es = join_entries(p, left, k, right, k);
            let out = deduplicate(policy, numeric, es);
            forall|b: int|
                0 <= b < out.len() ==> k < (#[trigger] out[b]).len() && exists|a: int|
                    0 <= a < es.len() && out[b][k] == es[a].1
        }),
{
    let p = join(strategy, numeric, left, k, right, k)->Some_0;
    let es = join_entries(p, left, k, right, k);
    lemma_join_from_bounds(strategy, numeric, key_column(left, k), key_column(right, k), true, true, None, 0, 0);
    let ok = |key: Seq<u8>| exists|a: int| 0 <= a < es.len() && es[a].1 == key;
    assert forall|a: int| 0 <= a < es.len() implies entry_key_ok(#[trigger] es[a], k, ok) by {
        let q = p[a];
        assert(0 <= q.1);
        match q.0 {
            Side::Left => assert(es[a] == (left[q.1], left[q.1][k], Side::Left)),
            Side::Right => assert(es[a] == (right[q.1], right[q.1][k], Side::Right)),
        }
    }
    law_keys_survive(policy, numeric, es, k, ok);
    let out = deduplicate(policy, numeric, es);
    assert forall|b: int| 0 <= b < out.len() implies k < (#[trigger] out[b]).len() && exists|a: int|
        0 <= a < es.len() && out[b][k] == es[a].1 by {
        assert(row_key_ok(out[b], k, ok));
    }
}

/// For a whole merge: whatever the policy, the left difference of two
/// sorted tables emits no row whose left key field compares equal to a key
/// of the right table.
pub proof fn law_merge_and_not_excludes_right_keys(
    l: MergeLayout,
    dedup: DeduplicateStrategy,
    numeric: bool,
    left: Seq<Seq<Seq<u8>>>,
    right: Seq<Seq<Seq<u8>>>,
)
    requires
        l.left_map@.len() == l.output_headers@.len(),
        l.right_map@.len() == l.output_headers@.len(),
        l.left_key_index < l.output_headers@.len(),
        l.right_key_index < l.output_headers@.len(),
        sorted_keys(key_column(project_rows(left, l.left_map@), l.left_key_index as int), numeric),
        sorted_keys(key_column(project_rows(right, l.right_map@), l.right_key_index as int), numeric),
    ensures
        match merged_rows(l, MergeStrategy::AndNot, dedup, numeric, left, right) {
            Some(rows) => forall|b: int|
                0 <= b < rows.len() ==> {
                    let rp = project_rows(right, l.right_map@);
                    &&& (l.left_key_index as int) < (#[trigger] rows[b]).len()
                    &&& forall|r: int|
                        0 <= r < rp.len() ==> key_cmp(
                            rows[b][l.left_key_index as int],
                            rp[r][l.right_key_index as int],
                            numeric,
                        ) != Some(Ordering::Equal)
                },
            None => true,
        },
{
    let lp = project_rows(left, l.left_map@);
    let rp = project_rows(right, l.right_map@);
    let lki = l.left_key_index as int;
    let rki = l.right_key_index as int;
    if join(MergeStrategy::AndNot, numeric, lp, lki, rp, rki) is Some {
        assert(keyed(lp, lki));
        law_and_not_output_excludes_right_keys(dedup, numeric, lp, lki, rp, rki);
    }
}

/// For a whole merge where both tables key on the same output column, every
/// row emitted, under any policy, holds in that column the key of one of the
/// rows it was built from.
pub proof fn law_merge_key_column(
    l: MergeLayout,
    strategy: MergeStrategy,
    dedup: DeduplicateStrategy,
    numeric: bool,
    left: Seq<Seq<Seq<u8>>>,
    right: Seq<Seq<Seq<u8>>>,
)
    requires
        l.left_map@.len() == l.output_headers@.len(),
        l.right_map@.len() == l.output_headers@.len(),
        l.left_key_index < l.output_headers@.len(),
        l.right_key_index == l.left_key_index,
    ensures
        ({
            let lp = project_rows(left, l.left_map@);
            let rp = project_rows(right, l.right_map@);
            let k = l.left_key_index as int;
            match join(strategy, numeric, lp, k, rp, k) {
                Some(p) => {
                    let es = join_entries(p, lp, k, rp, k);
                    let rows = deduplicate(dedup, numeric, es);
                    &&& merged_rows(l, strategy, dedup, numeric, left, right) == Some(rows)
                    &&& forall|b: int|
                        0 <= b < rows.len() ==> k < (#[trigger] rows[b]).len() && exists|a: int|
                            0 <= a < es.len() && rows[b][k] == es[a].1
                },
                None => merged_rows(l, strategy, dedup, numeric, left, right) is None,
            }
        }),
{
    let lp = project_rows(left, l.left_map@);
    let rp = project_rows(right, l.right_map@);
    let k = l.left_key_index as int;
    if join(strategy, numeric, lp, k, rp, k) is Some {
        assert(keyed(lp, k));
        assert(keyed(rp, k));
        law_output_key_column(dedup, strategy, numeric, lp, rp, k);
    }
}

} // verus!
