//! Rows of byte fields, their views, and the byte-wise orders on them.
use core::cmp::Ordering;
use vstd::prelude::*;

verus! {

/// The view of a row: one byte sequence per field.
pub open spec fn row_view(r: Vec<Vec<u8>>) -> Seq<Seq<u8>> {
    r@.map_values(|f: Vec<u8>| f@)
}

/// The view of a list of rows.
pub open spec fn rows_view(rs: Vec<Vec<Vec<u8>>>) -> Seq<Seq<Seq<u8>>> {
    rs@.map_values(|r: Vec<Vec<u8>>| row_view(r))
}

/// Copies a byte field.
pub fn clone_bytes(b: &Vec<u8>) -> (r: Vec<u8>)
    ensures
        r@ == b@,
{
    let r = b.clone();
    assert(r@ =~= b@);
    r
}

/// Copies a row field by field.
pub fn clone_row(r: &Vec<Vec<u8>>) -> (c: Vec<Vec<u8>>)
    ensures
        row_view(c) == row_view(*r),
{
    let mut c: Vec<Vec<u8>> = Vec::new();
    let mut i: usize = 0;
    while i < r.len()
        invariant
            i <= r.len(),
            c@.len() == i,
            forall|k: int| 0 <= k < i ==> (#[trigger] c@[k])@ == r@[k]@,
        decreases r.len() - i,
    {
        c.push(clone_bytes(&r[i]));
        i += 1;
    }
    assert(row_view(c) =~= row_view(*r));
    c
}

/// Lexicographic order on byte strings: a proper prefix comes first.
pub open spec fn bytes_lt(a: Seq<u8>, b: Seq<u8>) -> bool
    decreases a.len(),
{
    if b.len() == 0 {
        false
    } else if a.len() == 0 {
        true
    } else if a[0] != b[0] {
        a[0] < b[0]
    } else {
        bytes_lt(a.drop_first(), b.drop_first())
    }
}

/// The three-way comparison that goes with `bytes_lt`.
pub open spec fn bytes_cmp(a: Seq<u8>, b: Seq<u8>) -> Ordering {
    if bytes_lt(a, b) {
        Ordering::Less
    } else if a == b {
        Ordering::Equal
    } else {
        Ordering::Greater
    }
}

pub proof fn lemma_bytes_lt_irreflexive(a: Seq<u8>)
    ensures
        !bytes_lt(a, a),
    decreases a.len(),
{
    if a.len() > 0 {
        lemma_bytes_lt_irreflexive(a.drop_first());
    }
}

pub proof fn lemma_bytes_lt_asymmetric(a: Seq<u8>, b: Seq<u8>)
    ensures
        bytes_lt(a, b) ==> !bytes_lt(b, a),
    decreases a.len(),
{
    if a.len() > 0 && b.len() > 0 && a[0] == b[0] {
        lemma_bytes_lt_asymmetric(a.drop_first(), b.drop_first());
    }
}

pub proof fn lemma_bytes_lt_total(a: Seq<u8>, b: Seq<u8>)
    ensures
        a != b ==> bytes_lt(a, b) || bytes_lt(b, a),
    decreases a.len(),
{
    if a.len() > 0 && b.len() > 0 && a[0] == b[0] {
        lemma_bytes_lt_total(a.drop_first(), b.drop_first());
        if a.drop_first() == b.drop_first() {
            assert(a =~= seq![a[0]] + a.drop_first());
            assert(b =~= seq![b[0]] + b.drop_first());
        }
    } else if a.len() == 0 && b.len() == 0 {
        assert(a =~= b);
    }
}

pub proof fn lemma_bytes_lt_transitive(a: Seq<u8>, b: Seq<u8>, c: Seq<u8>)
    requires
        bytes_lt(a, b),
        bytes_lt(b, c),
    ensures
        bytes_lt(a, c),
    decreases a.len(),
{
    if a.len() > 0 && a[0] == b[0] && b[0] == c[0] {
        lemma_bytes_lt_transitive(a.drop_first(), b.drop_first(), c.drop_first());
    }
}

/// Compares two byte strings lexicographically.
pub fn compare_bytes(a: &Vec<u8>, b: &Vec<u8>) -> (r: Ordering)
    ensures
        r == bytes_cmp(a@, b@),
{
    let mut i: usize = 0;
    assert(a@.skip(0) =~= a@);
    assert(b@.skip(0) =~= b@);
    while i < a.len() && i < b.len()
        invariant
            i <= a.len(),
            i <= b.len(),
            a@.subrange(0, i as int) == b@.subrange(0, i as int),
            bytes_lt(a@, b@) == bytes_lt(a@.skip(i as int), b@.skip(i as int)),
        decreases a.len() - i,
    {
        if a[i] != b[i] {
            proof {
                lemma_bytes_lt_asymmetric(a@, b@);
            }
            if a[i] < b[i] {
                return Ordering::Less;
            } else {
                proof {
                    lemma_bytes_lt_total(a@, b@);
                    assert(a@[i as int] != b@[i as int]);
                }
                return Ordering::Greater;
            }
        }
        assert(a@.skip(i as int).drop_first() =~= a@.skip(i + 1));
        assert(b@.skip(i as int).drop_first() =~= b@.skip(i + 1));
        assert(a@.subrange(0, i + 1) =~= a@.subrange(0, i as int).push(a@[i as int]));
        assert(b@.subrange(0, i + 1) =~= b@.subrange(0, i as int).push(b@[i as int]));
        i += 1;
    }
    if a.len() == b.len() {
        assert(a@ =~= a@.subrange(0, i as int));
        assert(b@ =~= b@.subrange(0, i as int));
        proof {
            lemma_bytes_lt_irreflexive(a@);
        }
        Ordering::Equal
    } else if i == a.len() {
        Ordering::Less
    } else {
        proof {
            lemma_bytes_lt_asymmetric(a@, b@);
        }
        Ordering::Greater
    }
}

/// Lexicographic order on rows: fields compared in turn by `bytes_lt`.
pub open spec fn row_lt(a: Seq<Seq<u8>>, b: Seq<Seq<u8>>) -> bool
    decreases a.len(),
{
    if b.len() == 0 {
        false
    } else if a.len() == 0 {
        true
    } else if a[0] != b[0] {
        bytes_lt(a[0], b[0])
    } else {
        row_lt(a.drop_first(), b.drop_first())
    }
}

pub proof fn lemma_row_lt_irreflexive(a: Seq<Seq<u8>>)
    ensures
        !row_lt(a, a),
    decreases a.len(),
{
    if a.len() > 0 {
        lemma_row_lt_irreflexive(a.drop_first());
    }
}

pub proof fn lemma_row_lt_asymmetric(a: Seq<Seq<u8>>, b: Seq<Seq<u8>>)
    ensures
        row_lt(a, b) ==> !row_lt(b, a),
    decreases a.len(),
{
    if a.len() > 0 && b.len() > 0 {
        if a[0] == b[0] {
            lemma_row_lt_asymmetric(a.drop_first(), b.drop_first());
        } else {
            lemma_bytes_lt_asymmetric(a[0], b[0]);
        }
    }
}

pub proof fn lemma_row_lt_total(a: Seq<Seq<u8>>, b: Seq<Seq<u8>>)
    ensures
        a != b ==> row_lt(a, b) || row_lt(b, a),
    decreases a.len(),
{
    if a.len() > 0 && b.len() > 0 {
        if a[0] == b[0] {
            lemma_row_lt_total(a.drop_first(), b.drop_first());
            if a.drop_first() == b.drop_first() {
                assert(a =~= seq![a[0]] + a.drop_first());
                assert(b =~= seq![b[0]] + b.drop_first());
            }
        } else {
            lemma_bytes_lt_total(a[0], b[0]);
        }
    } else if a.len() == 0 && b.len() == 0 {
        assert(a =~= b);
    }
}

pub proof fn lemma_row_lt_transitive(a: Seq<Seq<u8>>, b: Seq<Seq<u8>>, c: Seq<Seq<u8>>)
    requires
        row_lt(a, b),
        row_lt(b, c),
    ensures
        row_lt(a, c),
    decreases a.len(),
{
    if a.len() > 0 && c.len() > 0 {
        if a[0] == b[0] && b[0] == c[0] {
            lemma_row_lt_transitive(a.drop_first(), b.drop_first(), c.drop_first());
        } else if a[0] != b[0] && b[0] != c[0] {
            lemma_bytes_lt_transitive(a[0], b[0], c[0]);
            lemma_bytes_lt_irreflexive(a[0]);
        } else if a[0] == b[0] {
            assert(bytes_lt(b[0], c[0]));
            lemma_bytes_lt_irreflexive(a[0]);
        } else {
            lemma_bytes_lt_irreflexive(a[0]);
        }
    }
}

/// Compares two rows field by field.
pub fn compare_rows(a: &Vec<Vec<u8>>, b: &Vec<Vec<u8>>) -> (r: Ordering)
    ensures
        r == Ordering::Less <==> row_lt(row_view(*a), row_view(*b)),
        r == Ordering::Equal <==> row_view(*a) == row_view(*b),
{
    let ghost av = row_view(*a);
    let ghost bv = row_view(*b);
    let mut i: usize = 0;
    assert(av.skip(0) =~= av);
    assert(bv.skip(0) =~= bv);
    while i < a.len() && i < b.len()
        invariant
            av == row_view(*a),
            bv == row_view(*b),
            i <= a.len(),
            i <= b.len(),
            av.subrange(0, i as int) == bv.subrange(0, i as int),
            row_lt(av, bv) == row_lt(av.skip(i as int), bv.skip(i as int)),
        decreases a.len() - i,
    {
        let c = compare_bytes(&a[i], &b[i]);
        assert(av[i as int] == a@[i as int]@);
        assert(bv[i as int] == b@[i as int]@);
        match c {
            Ordering::Equal => {},
            _ => {
                proof {
                    lemma_row_lt_asymmetric(av, bv);
                    lemma_row_lt_total(av, bv);
                    lemma_bytes_lt_asymmetric(av[i as int], bv[i as int]);
                    lemma_bytes_lt_total(av[i as int], bv[i as int]);
                    assert(av[i as int] != bv[i as int]);
                    assert(av != bv);
                }
                return c;
            },
        }
        assert(av.skip(i as int).drop_first() =~= av.skip(i + 1));
        assert(bv.skip(i as int).drop_first() =~= bv.skip(i + 1));
        assert(av.subrange(0, i + 1) =~= av.subrange(0, i as int).push(av[i as int]));
        assert(bv.subrange(0, i + 1) =~= bv.subrange(0, i as int).push(bv[i as int]));
        i += 1;
    }
    if a.len() == b.len() {
        assert(av =~= av.subrange(0, i as int));
        assert(bv =~= bv.subrange(0, i as int));
        proof {
            lemma_row_lt_irreflexive(av);
        }
        Ordering::Equal
    } else if i == a.len() {
        assert(av.len() != bv.len());
        Ordering::Less
    } else {
        proof {
            lemma_row_lt_asymmetric(av, bv);
        }
        assert(av.len() != bv.len());
        Ordering::Greater
    }
}

/// Tells whether two byte strings are equal.
pub fn bytes_eq(a: &Vec<u8>, b: &Vec<u8>) -> (r: bool)
    ensures
        r == (a@ == b@),
{
    proof {
        lemma_bytes_lt_irreflexive(a@);
    }
    match compare_bytes(a, b) {
        Ordering::Equal => true,
        _ => false,
    }
}

} // verus!
