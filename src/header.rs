//! The output schema: union of the two header lists, and per-side projection.
use vstd::prelude::*;

use crate::deduplicate::lemma_concat_contains;
use crate::record::{bytes_eq, clone_bytes, row_view};
use crate::{MergeError, Side};

verus! {

/// The view of a header list; `None` marks a column that is dropped.
pub open spec fn headers_view(h: Vec<Option<Vec<u8>>>) -> Seq<Option<Seq<u8>>> {
    h@.map_values(|o: Option<Vec<u8>>|
        match o {
            Some(v) => Some(v@),
            None => None,
        }
    )
}

/// The view of a list of names.
pub open spec fn names_view(h: Vec<Vec<u8>>) -> Seq<Seq<u8>> {
    h@.map_values(|v: Vec<u8>| v@)
}

/// The names that are kept, in order.
pub open spec fn present(h: Seq<Option<Seq<u8>>>) -> Seq<Seq<u8>>
    decreases h.len(),
{
    if h.len() == 0 {
        Seq::empty()
    } else {
        let p = present(h.drop_last());
        match h.last() {
            Some(n) => p.push(n),
            None => p,
        }
    }
}

/// `s` with every name after its first occurrence removed.
pub open spec fn dedup_first(s: Seq<Seq<u8>>) -> Seq<Seq<u8>>
    decreases s.len(),
{
    if s.len() == 0 {
        Seq::empty()
    } else {
        let p = dedup_first(s.drop_last());
        if p.contains(s.last()) {
            p
        } else {
            p.push(s.last())
        }
    }
}

/// The output header list: left names then right names, first occurrence wins.
pub open spec fn union_headers(l: Seq<Option<Seq<u8>>>, r: Seq<Option<Seq<u8>>>) -> Seq<Seq<u8>> {
    dedup_first(present(l) + present(r))
}

/// `p` is where `n` first stands in `h`, or `None` if it does not.
pub open spec fn is_header_pos(h: Seq<Option<Seq<u8>>>, n: Seq<u8>, p: Option<usize>) -> bool {
    match p {
        Some(j) => j < h.len() && h[j as int] == Some(n) && forall|k: int|
            0 <= k < j ==> h[k] != Some(n),
        None => forall|k: int| 0 <= k < h.len() ==> h[k] != Some(n),
    }
}

/// For each output column, where it stands in the side's headers.
pub open spec fn is_projection(out: Seq<Seq<u8>>, h: Seq<Option<Seq<u8>>>, m: Seq<Option<usize>>) -> bool {
    m.len() == out.len() && forall|i: int| 0 <= i < out.len() ==> is_header_pos(h, out[i], #[trigger] m[i])
}

/// A source row widened to the output columns; absent columns are empty.
pub open spec fn project(rec: Seq<Seq<u8>>, m: Seq<Option<usize>>) -> Seq<Seq<u8>> {
    Seq::new(
        m.len(),
        |i: int|
            match m[i] {
                Some(j) => if j < rec.len() {
                    rec[j as int]
                } else {
                    Seq::empty()
                },
                None => Seq::empty(),
            },
    )
}

pub proof fn lemma_dedup_first_contains(s: Seq<Seq<u8>>, x: Seq<u8>)
    ensures
        dedup_first(s).contains(x) == s.contains(x),
    decreases s.len(),
{
    if s.len() > 0 {
        lemma_dedup_first_contains(s.drop_last(), x);
        let p = dedup_first(s.drop_last());
        if s.contains(x) && !s.drop_last().contains(x) {
            let k = choose|k: int| 0 <= k < s.len() && s[k] == x;
            if k < s.len() - 1 {
                assert(s.drop_last()[k] == x);
            }
            if !p.contains(s.last()) {
                assert(p.push(s.last())[p.len() as int] == x);
            }
        }
        if s.drop_last().contains(x) {
            let k = choose|k: int| 0 <= k < s.len() - 1 && s.drop_last()[k] == x;
            assert(s[k] == x);
            if !p.contains(s.last()) {
                let k2 = choose|k2: int| 0 <= k2 < p.len() && p[k2] == x;
                assert(p.push(s.last())[k2] == x);
            }
        }
        if !s.contains(x) && !p.contains(s.last()) {
            assert(s[s.len() - 1] == s.last());
            assert forall|k: int| 0 <= k < p.len() + 1 implies p.push(s.last())[k] != x by {
                if k < p.len() {
                    assert(p.push(s.last())[k] == p[k]);
                }
            }
        }
    }
}

proof fn lemma_dedup_first_distinct(s: Seq<Seq<u8>>)
    ensures
        forall|i: int, j: int|
            0 <= i < j < dedup_first(s).len() ==> dedup_first(s)[i] != dedup_first(s)[j],
    decreases s.len(),
{
    if s.len() > 0 {
        lemma_dedup_first_distinct(s.drop_last());
        let p = dedup_first(s.drop_last());
        if !p.contains(s.last()) {
            assert forall|i: int, j: int| 0 <= i < j < p.len() + 1 implies p.push(s.last())[i]
                != p.push(s.last())[j] by {
                if j == p.len() {
                    assert(p[i] == p.push(s.last())[i]);
                }
            }
        }
    }
}

/// Finds where `n` first stands in `h`.
pub fn find_header(h: &Vec<Option<Vec<u8>>>, n: &Vec<u8>) -> (r: Option<usize>)
    ensures
        is_header_pos(headers_view(*h), n@, r),
{
    let ghost hv = headers_view(*h);
    let mut j: usize = 0;
    while j < h.len()
        invariant
            hv == headers_view(*h),
            j <= h.len(),
            forall|k: int| 0 <= k < j ==> hv[k] != Some(n@),
        decreases h.len() - j,
    {
        match &h[j] {
            Some(name) => {
                if bytes_eq(name, n) {
                    return Some(j);
                }
            },
            None => {},
        }
        j += 1;
    }
    None
}

/// Tells whether `n` is among `names`.
fn contains_name(names: &Vec<Vec<u8>>, n: &Vec<u8>) -> (r: bool)
    ensures
        r == names_view(*names).contains(n@),
{
    let mut j: usize = 0;
    while j < names.len()
        invariant
            j <= names.len(),
            forall|k: int| 0 <= k < j ==> names@[k]@ != n@,
        decreases names.len() - j,
    {
        if bytes_eq(&names[j], n) {
            assert(names_view(*names)[j as int] == n@);
            return true;
        }
        j += 1;
    }
    proof {
        if names_view(*names).contains(n@) {
            let k = choose|k: int| 0 <= k < names.len() && names_view(*names)[k] == n@;
            assert(names@[k]@ == n@);
        }
    }
    false
}

/// Appends the kept names of `h` to `out`, skipping names already there.
fn append_union(out: &mut Vec<Vec<u8>>, h: &Vec<Option<Vec<u8>>>, Ghost(before): Ghost<Seq<Seq<u8>>>)
    requires
        names_view(*old(out)) == dedup_first(before),
    ensures
        names_view(*final(out)) == dedup_first(before + present(headers_view(*h))),
{
    let ghost hv = headers_view(*h);
    let mut i: usize = 0;
    assert(hv.subrange(0, 0) =~= Seq::<Option<Seq<u8>>>::empty());
    assert(before + present(hv.subrange(0, 0)) =~= before);
    while i < h.len()
        invariant
            hv == headers_view(*h),
            i <= h.len(),
            names_view(*out) == dedup_first(before + present(hv.subrange(0, i as int))),
        decreases h.len() - i,
    {
        let ghost pre = before + present(hv.subrange(0, i as int));
        assert(hv.subrange(0, i + 1).drop_last() =~= hv.subrange(0, i as int));
        assert(hv.subrange(0, i + 1).last() == hv[i as int]);
        match &h[i] {
            Some(name) => {
                assert(before + present(hv.subrange(0, i + 1)) =~= pre.push(name@));
                assert(pre.push(name@).drop_last() =~= pre);
                if !contains_name(out, name) {
                    let ghost o = names_view(*out);
                    out.push(clone_bytes(name));
                    assert(names_view(*out) =~= o.push(name@));
                }
            },
            None => {
                assert(before + present(hv.subrange(0, i + 1)) =~= pre);
            },
        }
        i += 1;
    }
    assert(hv.subrange(0, h.len() as int) =~= hv);
}

/// The output header list: the ordered union of both sides' kept names.
pub fn output_headers(left: &Vec<Option<Vec<u8>>>, right: &Vec<Option<Vec<u8>>>) -> (r: Vec<Vec<u8>>)
    ensures
        names_view(r) == union_headers(headers_view(*left), headers_view(*right)),
{
    let mut out: Vec<Vec<u8>> = Vec::new();
    assert(names_view(out) =~= dedup_first(Seq::empty()));
    append_union(&mut out, left, Ghost(Seq::empty()));
    assert(Seq::<Seq<u8>>::empty() + present(headers_view(*left)) =~= present(headers_view(*left)));
    append_union(&mut out, right, Ghost(present(headers_view(*left))));
    out
}

/// For each output column, the position of the same name in a side's headers.
pub fn map_file_headers_to_output(output: &Vec<Vec<u8>>, file: &Vec<Option<Vec<u8>>>) -> (r: Vec<Option<usize>>)
    ensures
        is_projection(names_view(*output), headers_view(*file), r@),
{
    let mut m: Vec<Option<usize>> = Vec::new();
    let mut i: usize = 0;
    while i < output.len()
        invariant
            i <= output.len(),
            m@.len() == i,
            forall|k: int| 0 <= k < i ==> is_header_pos(headers_view(*file), names_view(*output)[k], #[trigger] m@[k]),
        decreases output.len() - i,
    {
        let p = find_header(file, &output[i]);
        m.push(p);
        i += 1;
    }
    m
}

/// Widens a source row to the output columns.
pub fn project_row(record: &Vec<Vec<u8>>, mapping: &Vec<Option<usize>>) -> (r: Vec<Vec<u8>>)
    ensures
        row_view(r) == project(row_view(*record), mapping@),
{
    let mut out: Vec<Vec<u8>> = Vec::new();
    let mut i: usize = 0;
    while i < mapping.len()
        invariant
            i <= mapping.len(),
            out@.len() == i,
            forall|k: int| 0 <= k < i ==> (#[trigger] out@[k])@ == project(row_view(*record), mapping@)[k],
        decreases mapping.len() - i,
    {
        match mapping[i] {
            Some(j) => {
                if j < record.len() {
                    out.push(clone_bytes(&record[j]));
                } else {
                    out.push(Vec::new());
                }
            },
            None => out.push(Vec::new()),
        }
        i += 1;
    }
    assert(row_view(out) =~= project(row_view(*record), mapping@));
    out
}

/// `n` is kept among the headers `h`.
pub open spec fn has_header(h: Seq<Option<Seq<u8>>>, n: Seq<u8>) -> bool {
    exists|k: int| 0 <= k < h.len() && h[k] == Some(n)
}

/// `idx` is where `n` first stands in the names `out`.
pub open spec fn is_name_pos(out: Seq<Seq<u8>>, n: Seq<u8>, idx: usize) -> bool {
    idx < out.len() && out[idx as int] == n && forall|k: int| 0 <= k < idx ==> out[k] != n
}

proof fn lemma_present_contains(h: Seq<Option<Seq<u8>>>, n: Seq<u8>)
    ensures
        present(h).contains(n) == has_header(h, n),
    decreases h.len(),
{
    if h.len() > 0 {
        let t = h.drop_last();
        lemma_present_contains(t, n);
        let p = present(t);
        if has_header(t, n) {
            let k = choose|k: int| 0 <= k < t.len() && t[k] == Some(n);
            assert(h[k] == Some(n));
            let k2 = choose|k2: int| 0 <= k2 < p.len() && p[k2] == n;
            if h.last() is Some {
                assert(p.push(h.last()->Some_0)[k2] == n);
            }
        }
        if h.last() == Some(n) {
            assert(h[h.len() - 1] == Some(n));
            assert(p.push(n)[p.len() as int] == n);
        }
        if has_header(h, n) && !has_header(t, n) {
            let k = choose|k: int| 0 <= k < h.len() && h[k] == Some(n);
            if k < h.len() - 1 {
                assert(t[k] == Some(n));
            }
        }
        if present(h).contains(n) && !p.contains(n) {
            let k = choose|k: int| 0 <= k < present(h).len() && present(h)[k] == n;
            if h.last() is Some {
                if k < p.len() {
                    assert(p.push(h.last()->Some_0)[k] == p[k]);
                }
                assert(h[h.len() - 1] == Some(n));
            }
        }
    }
}

/// Finds where `n` first stands among `names`.
fn find_name(names: &Vec<Vec<u8>>, n: &Vec<u8>) -> (r: Option<usize>)
    ensures
        match r {
            Some(idx) => is_name_pos(names_view(*names), n@, idx),
            None => !names_view(*names).contains(n@),
        },
{
    let mut j: usize = 0;
    while j < names.len()
        invariant
            j <= names.len(),
            forall|k: int| 0 <= k < j ==> names_view(*names)[k] != n@,
        decreases names.len() - j,
    {
        if bytes_eq(&names[j], n) {
            return Some(j);
        }
        j += 1;
    }
    None
}

/// The output columns and how each side's rows map onto them.
pub struct MergeLayout {
    pub output_headers: Vec<Vec<u8>>,
    pub left_map: Vec<Option<usize>>,
    pub right_map: Vec<Option<usize>>,
    /// Position of the left key column among the output columns.
    pub left_key_index: usize,
    /// Position of the right key column among the output columns.
    pub right_key_index: usize,
}

impl MergeLayout {
    /// `self` is the layout for these headers and key names.
    pub open spec fn describes(
        &self,
        lh: Seq<Option<Seq<u8>>>,
        rh: Seq<Option<Seq<u8>>>,
        lkey: Seq<u8>,
        rkey: Seq<u8>,
    ) -> bool {
        let out = names_view(self.output_headers);
        &&& out == union_headers(lh, rh)
        &&& is_projection(out, lh, self.left_map@)
        &&& is_projection(out, rh, self.right_map@)
        &&& is_name_pos(out, lkey, self.left_key_index)
        &&& is_name_pos(out, rkey, self.right_key_index)
    }

    /// Builds the output columns, both projections and the key positions;
    /// fails when a key column is not among its side's kept headers.
    pub fn build(
        left_headers: &Vec<Option<Vec<u8>>>,
        right_headers: &Vec<Option<Vec<u8>>>,
        left_key: &Vec<u8>,
        right_key: &Vec<u8>,
    ) -> (r: Result<MergeLayout, MergeError>)
        ensures
            !has_header(headers_view(*left_headers), left_key@) ==> r == Err::<MergeLayout, MergeError>(
                MergeError::MissingKeyColumn(Side::Left),
            ),
            has_header(headers_view(*left_headers), left_key@) && !has_header(
                headers_view(*right_headers),
                right_key@,
            ) ==> r == Err::<MergeLayout, MergeError>(MergeError::MissingKeyColumn(Side::Right)),
            has_header(headers_view(*left_headers), left_key@) && has_header(
                headers_view(*right_headers),
                right_key@,
            ) ==> match r {
                Ok(l) => l.describes(
                    headers_view(*left_headers),
                    headers_view(*right_headers),
                    left_key@,
                    right_key@,
                ),
                Err(_) => false,
            },
    {
        let ghost lh = headers_view(*left_headers);
        let ghost rh = headers_view(*right_headers);
        if find_header(left_headers, left_key).is_none() {
            return Err(MergeError::MissingKeyColumn(Side::Left));
        }
        if find_header(right_headers, right_key).is_none() {
            assert(has_header(lh, left_key@));
            return Err(MergeError::MissingKeyColumn(Side::Right));
        }
        let output_headers = output_headers(left_headers, right_headers);
        let left_map = map_file_headers_to_output(&output_headers, left_headers);
        let right_map = map_file_headers_to_output(&output_headers, right_headers);
        proof {
            let all = present(lh) + present(rh);
            lemma_present_contains(lh, left_key@);
            lemma_present_contains(rh, right_key@);
            let a = choose|k: int| 0 <= k < present(lh).len() && present(lh)[k] == left_key@;
            assert(all[a] == left_key@);
            let b = choose|k: int| 0 <= k < present(rh).len() && present(rh)[k] == right_key@;
            assert(all[present(lh).len() + b] == right_key@);
            lemma_dedup_first_contains(all, left_key@);
            lemma_dedup_first_contains(all, right_key@);
        }
        let left_key_index = match find_name(&output_headers, left_key) {
            Some(k) => k,
            None => {
                return Err(MergeError::MissingKeyColumn(Side::Left));
            },
        };
        let right_key_index = match find_name(&output_headers, right_key) {
            Some(k) => k,
            None => {
                return Err(MergeError::MissingKeyColumn(Side::Right));
            },
        };
        Ok(MergeLayout { output_headers, left_map, right_map, left_key_index, right_key_index })
    }
}

/// The output header list holds no name twice, and holds exactly the names
/// kept on either side.
pub proof fn law_output_headers(l: Seq<Option<Seq<u8>>>, r: Seq<Option<Seq<u8>>>)
    ensures
        forall|i: int, j: int|
            0 <= i < j < union_headers(l, r).len() ==> union_headers(l, r)[i] != union_headers(l, r)[j],
        forall|n: Seq<u8>| union_headers(l, r).contains(n) == (has_header(l, n) || has_header(r, n)),
{
    lemma_dedup_first_distinct(present(l) + present(r));
    assert forall|n: Seq<u8>| union_headers(l, r).contains(n) == (has_header(l, n) || has_header(r, n)) by {
        lemma_dedup_first_contains(present(l) + present(r), n);
        lemma_concat_contains(present(l), present(r), n);
        lemma_present_contains(l, n);
        lemma_present_contains(r, n);
    }
}

} // verus!
