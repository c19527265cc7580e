//! Row filters of the single-table transform.
use core::cmp::Ordering;
use vstd::prelude::*;
use vstd::utf8::encode_utf8;

use crate::key::{int_cmp, lemma_parse_i64_range, parse_i64, to_number};
use crate::record::{bytes_cmp, bytes_eq, clone_bytes, compare_bytes, row_view};

verus! {

/// How a filter reads the field it tests.
#[derive(PartialEq, Eq, Structural, Clone, Copy, Debug)]
pub enum FieldType {
    Number,
    String,
}

/// The test a filter applies.
#[derive(PartialEq, Eq, Structural, Clone, Copy, Debug)]
pub enum Comparison {
    Eq,
    Lt,
    Le,
    Gt,
    Ge,
}

/// Why a transform cannot go on.
#[derive(PartialEq, Eq, Structural, Clone, Copy, Debug)]
pub enum TransformError {
    /// A filter names a column that the headers do not have.
    FieldNotFound,
    /// A row has no field at a filter's column.
    MissingField,
    /// A number filter met a value that is not a signed 64-bit integer.
    NotNumber,
}

/// Keeps rows whose field `field` compares to `value` as `comparison` says.
#[derive(Debug)]
pub struct Filter {
    /// The column of `field`, once resolved against the headers.
    pub index: Option<usize>,
    pub field: String,
    pub field_type: FieldType,
    pub comparison: Comparison,
    pub value: String,
}

/// A filter as handed over from a script host.
pub struct JsFilter {
    pub inner: Filter,
}

/// Whether an ordering passes a comparison.
pub open spec fn passes(c: Comparison, o: Ordering) -> bool {
    match c {
        Comparison::Eq => o == Ordering::Equal,
        Comparison::Lt => o == Ordering::Less,
        Comparison::Le => o != Ordering::Greater,
        Comparison::Gt => o == Ordering::Greater,
        Comparison::Ge => o != Ordering::Less,
    }
}

/// The bytes of a string.
pub open spec fn text_bytes(s: String) -> Seq<u8> {
    encode_utf8(s@)
}

/// How a field value compares to the filter value, if it can be compared.
pub open spec fn field_order(f: Filter, v: Seq<u8>) -> Option<Ordering> {
    match f.field_type {
        FieldType::Number => match (parse_i64(v), parse_i64(text_bytes(f.value))) {
            (Some(a), Some(b)) => Some(int_cmp(a, b)),
            _ => None,
        },
        FieldType::String => Some(bytes_cmp(v, text_bytes(f.value))),
    }
}

/// What one filter says of a row: `None` when the row cannot be tested.
pub open spec fn filter_verdict(f: Filter, rec: Seq<Seq<u8>>) -> Result<bool, TransformError> {
    match f.index {
        None => Ok(true),
        Some(i) => if i >= rec.len() {
            Err(TransformError::MissingField)
        } else {
            match field_order(f, rec[i as int]) {
                Some(o) => Ok(passes(f.comparison, o)),
                None => Err(TransformError::NotNumber),
            }
        },
    }
}

/// The filters from `k` on, in order: the first failure or error decides.
pub open spec fn record_verdict(fs: Seq<Filter>, rec: Seq<Seq<u8>>, k: int) -> Result<bool, TransformError>
    decreases fs.len() - k,
{
    if k < 0 || k >= fs.len() {
        Ok(true)
    } else {
        match filter_verdict(fs[k], rec) {
            Ok(true) => record_verdict(fs, rec, k + 1),
            other => other,
        }
    }
}

/// The error value of a transform.
pub fn create_transform_error(error: TransformError) -> (r: Result<(), TransformError>)
    ensures
        r == Err::<(), TransformError>(error),
{
    Err(error)
}

/// The bytes of a string.
fn string_bytes(s: &String) -> (r: Vec<u8>)
    ensures
        r@ == text_bytes(*s),
{
    vstd::slice::slice_to_vec(s.as_str().as_bytes())
}

impl Filter {
    /// A filter on `field`; the type defaults to text and the test to equality.
    pub fn create(
        field: String,
        value: String,
        field_type: Option<FieldType>,
        comparison: Option<Comparison>,
    ) -> (r: Self)
        ensures
            r.index is None,
            r.field@ == field@,
            r.value@ == value@,
            r.field_type == match field_type {
                Some(t) => t,
                None => FieldType::String,
            },
            r.comparison == match comparison {
                Some(c) => c,
                None => Comparison::Eq,
            },
    {
        let field_type = match field_type {
            Some(t) => t,
            None => FieldType::String,
        };
        let comparison = match comparison {
            Some(c) => c,
            None => Comparison::Eq,
        };
        Filter { index: None, value, field, field_type, comparison }
    }

    /// A copy of the filter, not yet resolved.
    pub fn duplicate(&self) -> (r: Self)
        ensures
            r.index is None,
            r.field@ == self.field@,
            r.value@ == self.value@,
            r.field_type == self.field_type,
            r.comparison == self.comparison,
    {
        Filter {
            index: None,
            field: self.field.clone(),
            field_type: self.field_type,
            comparison: self.comparison,
            value: self.value.clone(),
        }
    }

    /// Finds the filter's column among `headers` (the first of that name).
    pub fn resolve(&mut self, headers: &Vec<Vec<u8>>) -> (r: Result<(), TransformError>)
        ensures
            final(self).field@ == old(self).field@,
            final(self).value@ == old(self).value@,
            final(self).field_type == old(self).field_type,
            final(self).comparison == old(self).comparison,
            match r {
                Ok(()) => match final(self).index {
                    Some(i) => i < headers.len() && headers@[i as int]@ == text_bytes(old(self).field)
                        && forall|k: int| 0 <= k < i ==> headers@[k]@ != text_bytes(old(self).field),
                    None => false,
                },
                Err(e) => e == TransformError::FieldNotFound && final(self).index == old(self).index
                    && forall|k: int| 0 <= k < headers.len() ==> headers@[k]@ != text_bytes(old(self).field),
            },
    {
        let name = string_bytes(&self.field);
        let mut j: usize = 0;
        while j < headers.len()
            invariant
                j <= headers.len(),
                *self == *old(self),
                name@ == text_bytes(self.field),
                forall|k: int| 0 <= k < j ==> headers@[k]@ != name@,
            decreases headers.len() - j,
        {
            if bytes_eq(&headers[j], &name) {
                self.index = Some(j);
                return Ok(());
            }
            j += 1;
        }
        Err(TransformError::FieldNotFound)
    }

    /// Tests one row.
    pub fn test(&self, record: &Vec<Vec<u8>>) -> (r: Result<bool, TransformError>)
        ensures
            r == filter_verdict(*self, row_view(*record)),
    {
        let i = match self.index {
            None => {
                return Ok(true);
            },
            Some(i) => i,
        };
        {
            {
                if i >= record.len() {
                    return Err(TransformError::MissingField);
                }
                let v = &record[i];
                assert(row_view(*record)[i as int] == v@);
                let target = string_bytes(&self.value);
                proof {
                    lemma_parse_i64_range(v@);
                    lemma_parse_i64_range(target@);
                }
                let o = match self.field_type {
                    FieldType::Number => {
                        let a = match to_number(v) {
                            Ok(a) => a,
                            Err(_) => {
                                return Err(TransformError::NotNumber);
                            },
                        };
                        let b = match to_number(&target) {
                            Ok(b) => b,
                            Err(_) => {
                                return Err(TransformError::NotNumber);
                            },
                        };
                        if a < b {
                            Ordering::Less
                        } else if a == b {
                            Ordering::Equal
                        } else {
                            Ordering::Greater
                        }
                    },
                    FieldType::String => compare_bytes(v, &target),
                };
                let pass = match self.comparison {
                    Comparison::Eq => match o {
                        Ordering::Equal => true,
                        _ => false,
                    },
                    Comparison::Lt => match o {
                        Ordering::Less => true,
                        _ => false,
                    },
                    Comparison::Le => match o {
                        Ordering::Greater => false,
                        _ => true,
                    },
                    Comparison::Gt => match o {
                        Ordering::Greater => true,
                        _ => false,
                    },
                    Comparison::Ge => match o {
                        Ordering::Less => false,
                        _ => true,
                    },
                };
                Ok(pass)
            }
        }
    }
}

impl JsFilter {
    pub fn constructor(
        field: String,
        value: String,
        field_type: Option<FieldType>,
        comparison: Option<Comparison>,
    ) -> (r: Self)
        ensures
            r.inner.index is None,
            r.inner.field@ == field@,
            r.inner.value@ == value@,
    {
        JsFilter { inner: Filter::create(field, value, field_type, comparison) }
    }
}

/// `i` is where the bytes of `name` first stand among `headers`.
pub open spec fn is_field_pos(headers: Seq<Seq<u8>>, name: String, i: usize) -> bool {
    i < headers.len() && headers[i as int] == text_bytes(name) && forall|k: int|
        0 <= k < i ==> headers[k] != text_bytes(name)
}

/// The bytes of `name` stand among `headers`.
pub open spec fn has_field(headers: Seq<Seq<u8>>, name: String) -> bool {
    exists|k: int| 0 <= k < headers.len() && headers[k] == text_bytes(name)
}

/// The view of a header list.
pub open spec fn header_bytes(h: Vec<Vec<u8>>) -> Seq<Seq<u8>> {
    h@.map_values(|v: Vec<u8>| v@)
}

/// Resolves every filter against the headers; fails exactly when a filter's
/// column is missing, and then leaves that filter and those after it alone.
pub fn parse_filters(filters: &mut Vec<Filter>, headers: &Vec<Vec<u8>>) -> (r: Result<(), TransformError>)
    ensures
        final(filters)@.len() == old(filters)@.len(),
        forall|k: int|
            0 <= k < final(filters)@.len() ==> {
                &&& (#[trigger] final(filters)@[k]).field@ == old(filters)@[k].field@
                &&& final(filters)@[k].value@ == old(filters)@[k].value@
                &&& final(filters)@[k].field_type == old(filters)@[k].field_type
                &&& final(filters)@[k].comparison == old(filters)@[k].comparison
            },
        (r is Ok) == (forall|k: int|
            0 <= k < old(filters)@.len() ==> has_field(header_bytes(*headers), #[trigger] old(filters)@[k].field)),
        r is Ok ==> forall|k: int|
            0 <= k < final(filters)@.len() ==> match (#[trigger] final(filters)@[k]).index {
                Some(i) => is_field_pos(header_bytes(*headers), old(filters)@[k].field, i),
                None => false,
            },
        r is Err ==> r == Err::<(), TransformError>(TransformError::FieldNotFound),
{
    let ghost hv = header_bytes(*headers);
    let mut i: usize = 0;
    while i < filters.len()
        invariant
            hv == header_bytes(*headers),
            i <= filters.len(),
            filters@.len() == old(filters)@.len(),
            forall|k: int|
                0 <= k < filters@.len() ==> {
                    &&& (#[trigger] filters@[k]).field@ == old(filters)@[k].field@
                    &&& filters@[k].value@ == old(filters)@[k].value@
                    &&& filters@[k].field_type == old(filters)@[k].field_type
                    &&& filters@[k].comparison == old(filters)@[k].comparison
                },
            forall|k: int|
                0 <= k < i ==> match (#[trigger] filters@[k]).index {
                    Some(j) => is_field_pos(hv, old(filters)@[k].field, j),
                    None => false,
                },
            forall|k: int| 0 <= k < i ==> has_field(hv, #[trigger] old(filters)@[k].field),
        decreases filters.len() - i,
    {
        let mut f = filters[i].duplicate();
        assert(text_bytes(f.field) == text_bytes(old(filters)@[i as int].field)) by {
            assert(f.field@ == old(filters)@[i as int].field@);
        }
        match f.resolve(headers) {
            Ok(()) => {},
            Err(e) => {
                proof {
                    if has_field(hv, old(filters)@[i as int].field) {
                        let k = choose|k: int| 0 <= k < hv.len() && hv[k] == text_bytes(old(filters)@[i as int].field);
                        assert(headers@[k]@ == hv[k]);
                    }
                }
                return Err(e);
            },
        }
        let ghost j = f.index->Some_0;
        assert(hv[j as int] == headers@[j as int]@);
        assert forall|k: int| 0 <= k < j implies hv[k] != text_bytes(old(filters)@[i as int].field) by {
            assert(hv[k] == headers@[k]@);
        }
        filters.set(i, f);
        i += 1;
    }
    Ok(())
}

/// Tests a row against every filter in turn.
pub fn test_record(filters: &Vec<Filter>, record: &Vec<Vec<u8>>) -> (r: Result<bool, TransformError>)
    ensures
        r == record_verdict(filters@, row_view(*record), 0),
{
    let mut i: usize = 0;
    while i < filters.len()
        invariant
            i <= filters.len(),
            record_verdict(filters@, row_view(*record), 0) == record_verdict(filters@, row_view(*record), i as int),
        decreases filters.len() - i,
    {
        let v = filters[i].test(record);
        match v {
            Ok(true) => {},
            _ => {
                return v;
            },
        }
        i += 1;
    }
    Ok(true)
}

/// The fields of `rec` whose column is kept, in order; a field with no
/// column entry is dropped.
pub open spec fn kept_fields(rec: Seq<Seq<u8>>, kept: Seq<bool>) -> Seq<Seq<u8>>
    decreases rec.len(),
{
    if rec.len() == 0 {
        Seq::empty()
    } else {
        let p = kept_fields(rec.drop_last(), kept);
        let i = rec.len() - 1;
        if i < kept.len() && kept[i] {
            p.push(rec.last())
        } else {
            p
        }
    }
}

/// The row the transform writes for a record that passed the filters: the
/// kept fields, then the line number when one is given.
pub fn output_record(record: &Vec<Vec<u8>>, kept: &Vec<bool>, line_value: Option<Vec<u8>>) -> (r: Vec<Vec<u8>>)
    ensures
        row_view(r) == kept_fields(row_view(*record), kept@) + match line_value {
            Some(l) => seq![l@],
            None => Seq::empty(),
        },
{
    let ghost rv = row_view(*record);
    let mut out: Vec<Vec<u8>> = Vec::new();
    let mut i: usize = 0;
    assert(rv.take(0) =~= Seq::<Seq<u8>>::empty());
    assert(row_view(out) =~= Seq::<Seq<u8>>::empty());
    while i < record.len()
        invariant
            rv == row_view(*record),
            i <= record.len(),
            row_view(out) == kept_fields(rv.take(i as int), kept@),
        decreases record.len() - i,
    {
        let ghost t = rv.take(i + 1);
        assert(t.drop_last() =~= rv.take(i as int));
        assert(t.last() == record@[i as int]@);
        if i < kept.len() && kept[i] {
            let ghost before = row_view(out);
            out.push(clone_bytes(&record[i]));
            assert(row_view(out) =~= before.push(record@[i as int]@));
        }
        i += 1;
    }
    assert(rv.take(record.len() as int) =~= rv);
    let ghost body = row_view(out);
    match line_value {
        Some(l) => {
            let ghost lv = l@;
            out.push(l);
            assert(row_view(out) =~= body + seq![lv]);
        },
        None => {
            assert(row_view(out) =~= body + Seq::<Seq<u8>>::empty());
        },
    }
    out
}

} // verus!
