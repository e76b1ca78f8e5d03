//! The value shapes that may cross the dispatch boundary: primitive integers,
//! strings (kept as their UTF-8 bytes), lists of primitives, records with
//! scalar fields, and lists of records.  A `Shape` describes the declared type
//! of one argument or result; an `Item` is one decoded value.  Each executable
//! type has a mathematical mirror (`SpecScalar`, `SpecItem`, ...) reached
//! through its view, and the codec contracts speak of the mirrors.

use vstd::prelude::*;

verus! {

/// A primitive value of the protocol: an integer or a string.
///
/// Strings are carried as their UTF-8 bytes: the codec layers work on bytes
/// and never need to re-validate encodings.
#[derive(PartialEq, Eq, Debug)]
pub enum Scalar {
    Int(i64),
    Str(Vec<u8>),
}

/// One named field of a record value.
#[derive(PartialEq, Eq, Debug)]
pub struct FieldVal {
    pub name: Vec<u8>,
    pub value: Scalar,
}

/// A record value: named scalar fields in declaration order.
#[derive(PartialEq, Eq, Debug)]
pub struct RecordVal {
    pub fields: Vec<FieldVal>,
}

/// One argument or result of an exported function.
#[derive(PartialEq, Eq, Debug)]
pub enum Item {
    Sc(Scalar),
    Rec(RecordVal),
    ScList(Vec<Scalar>),
    RecList(Vec<RecordVal>),
}

/// Mathematical mirror of `Scalar`.
#[verifier::ext_equal]
pub enum SpecScalar {
    Int(int),
    Str(Seq<u8>),
}

/// Mathematical mirror of `FieldVal`.
#[verifier::ext_equal]
pub struct SpecField {
    pub name: Seq<u8>,
    pub value: SpecScalar,
}

/// Mathematical mirror of `RecordVal`.
#[verifier::ext_equal]
pub struct SpecRecord {
    pub fields: Seq<SpecField>,
}

/// Mathematical mirror of `Item`.
#[verifier::ext_equal]
pub enum SpecItem {
    Sc(SpecScalar),
    Rec(SpecRecord),
    ScList(Seq<SpecScalar>),
    RecList(Seq<SpecRecord>),
}

impl View for Scalar {
    type V = SpecScalar;

    open spec fn view(&self) -> SpecScalar {
        match self {
            Scalar::Int(i) => SpecScalar::Int(*i as int),
            Scalar::Str(s) => SpecScalar::Str(s@),
        }
    }
}

impl View for FieldVal {
    type V = SpecField;

    open spec fn view(&self) -> SpecField {
        SpecField { name: self.name@, value: self.value@ }
    }
}

impl View for RecordVal {
    type V = SpecRecord;

    open spec fn view(&self) -> SpecRecord {
        SpecRecord { fields: self.fields@.map_values(|f: FieldVal| f@) }
    }
}

impl View for Item {
    type V = SpecItem;

    open spec fn view(&self) -> SpecItem {
        match self {
            Item::Sc(x) => SpecItem::Sc(x@),
            Item::Rec(r) => SpecItem::Rec(r@),
            Item::ScList(xs) => SpecItem::ScList(xs@.map_values(|x: Scalar| x@)),
            Item::RecList(rs) => SpecItem::RecList(rs@.map_values(|r: RecordVal| r@)),
        }
    }
}

/// The declared shape of a scalar: a 32-bit integer or a string.
pub enum ScalarShape {
    I32,
    Str,
}

/// The declared shape of one record field: its name and its scalar shape.
#[verifier::ext_equal]
pub struct SpecFieldShape {
    pub name: Seq<u8>,
    pub shape: ScalarShape,
}

/// The declared shape of one argument or result, as the interface manifest
/// states it.
#[verifier::ext_equal]
pub enum SpecShape {
    Sc(ScalarShape),
    Rec(Seq<SpecFieldShape>),
    ScList(ScalarShape),
    RecList(Seq<SpecFieldShape>),
}

fn copy_bytes(v: &Vec<u8>) -> (r: Vec<u8>)
    ensures
        r@ == v@,
{
    let mut out: Vec<u8> = Vec::new();
    let n = v.len();
    let mut i: usize = 0;
    while i < n
        invariant
            i <= n,
            n == v@.len(),
            out@ == v@.take(i as int),
        decreases n - i,
    {
        out.push(v[i]);
        proof {
            assert(v@.take(i + 1) =~= v@.take(i as int).push(v@[i as int]));
        }
        i = i + 1;
    }
    proof {
        assert(v@.take(n as int) =~= v@);
    }
    out
}

pub(crate) fn copy_scalar(v: &Scalar) -> (r: Scalar)
    ensures
        r@ == v@,
{
    match v {
        Scalar::Int(i) => Scalar::Int(*i),
        Scalar::Str(b) => Scalar::Str(copy_bytes(b)),
    }
}

fn copy_record(r0: &RecordVal) -> (r: RecordVal)
    ensures
        r@ == r0@,
{
    let mut fields: Vec<FieldVal> = Vec::new();
    let n = r0.fields.len();
    let mut i: usize = 0;
    while i < n
        invariant
            i <= n,
            n == r0.fields@.len(),
            fields@.map_values(|f: FieldVal| f@) == r0.fields@.map_values(|f: FieldVal| f@).take(
                i as int,
            ),
        decreases n - i,
    {
        let f = FieldVal {
            name: copy_bytes(&r0.fields[i].name),
            value: copy_scalar(&r0.fields[i].value),
        };
        let ghost pre = fields@.map_values(|f0: FieldVal| f0@);
        fields.push(f);
        proof {
            let m = r0.fields@.map_values(|f0: FieldVal| f0@);
            assert(fields@.map_values(|f0: FieldVal| f0@) =~= pre.push(m[i as int]));
            assert(m.take(i + 1) =~= m.take(i as int).push(m[i as int]));
        }
        i = i + 1;
    }
    proof {
        let m = r0.fields@.map_values(|f0: FieldVal| f0@);
        assert(m.take(n as int) =~= m);
        assert(RecordVal { fields }@ =~= r0@);
    }
    RecordVal { fields }
}

/// A structural copy of an item, with the same mathematical value.
pub fn copy_item(v: &Item) -> (r: Item)
    ensures
        r@ == v@,
{
    match v {
        Item::Sc(x) => Item::Sc(copy_scalar(x)),
        Item::Rec(r0) => Item::Rec(copy_record(r0)),
        Item::ScList(xs) => {
            let mut out: Vec<Scalar> = Vec::new();
            let n = xs.len();
            let mut i: usize = 0;
            while i < n
                invariant
                    i <= n,
                    n == xs@.len(),
                    out@.map_values(|x: Scalar| x@) == xs@.map_values(|x: Scalar| x@).take(i as int),
                decreases n - i,
            {
                let x = copy_scalar(&xs[i]);
                let ghost pre = out@.map_values(|x0: Scalar| x0@);
                out.push(x);
                proof {
                    let m = xs@.map_values(|x0: Scalar| x0@);
                    assert(out@.map_values(|x0: Scalar| x0@) =~= pre.push(m[i as int]));
                    assert(m.take(i + 1) =~= m.take(i as int).push(m[i as int]));
                }
                i = i + 1;
            }
            proof {
                let m = xs@.map_values(|x0: Scalar| x0@);
                assert(m.take(n as int) =~= m);
                assert(Item::ScList(out)@ =~= v@);
            }
            Item::ScList(out)
        },
        Item::RecList(rs) => {
            let mut out: Vec<RecordVal> = Vec::new();
            let n = rs.len();
            let mut i: usize = 0;
            while i < n
                invariant
                    i <= n,
                    n == rs@.len(),
                    out@.map_values(|x: RecordVal| x@) == rs@.map_values(|x: RecordVal| x@).take(
                        i as int,
                    ),
                decreases n - i,
            {
                let x = copy_record(&rs[i]);
                let ghost pre = out@.map_values(|x0: RecordVal| x0@);
                out.push(x);
                proof {
                    let m = rs@.map_values(|x0: RecordVal| x0@);
                    assert(out@.map_values(|x0: RecordVal| x0@) =~= pre.push(m[i as int]));
                    assert(m.take(i + 1) =~= m.take(i as int).push(m[i as int]));
                }
                i = i + 1;
            }
            proof {
                let m = rs@.map_values(|x0: RecordVal| x0@);
                assert(m.take(n as int) =~= m);
                assert(Item::RecList(out)@ =~= v@);
            }
            Item::RecList(out)
        },
    }
}

/// Whether a scalar value fits a declared scalar shape.
pub open spec fn scalar_matches(v: SpecScalar, s: ScalarShape) -> bool {
    match (v, s) {
        (SpecScalar::Int(i), ScalarShape::I32) => i32::MIN <= i <= i32::MAX,
        (SpecScalar::Str(_), ScalarShape::Str) => true,
        _ => false,
    }
}

/// Whether a record value fits a declared field list: same arity, and each
/// field carries the declared name and a matching scalar.
pub open spec fn record_matches(r: SpecRecord, fs: Seq<SpecFieldShape>) -> bool {
    &&& r.fields.len() == fs.len()
    &&& forall|i: int|
        0 <= i < fs.len() ==> {
            &&& (#[trigger] r.fields[i]).name == fs[i].name
            &&& scalar_matches(r.fields[i].value, fs[i].shape)
        }
}

/// Whether an item fits a declared shape.
pub open spec fn item_matches(v: SpecItem, s: SpecShape) -> bool {
    match (v, s) {
        (SpecItem::Sc(x), SpecShape::Sc(ss)) => scalar_matches(x, ss),
        (SpecItem::Rec(r), SpecShape::Rec(fs)) => record_matches(r, fs),
        (SpecItem::ScList(xs), SpecShape::ScList(ss)) => forall|i: int|
            0 <= i < xs.len() ==> scalar_matches(#[trigger] xs[i], ss),
        (SpecItem::RecList(rs), SpecShape::RecList(fs)) => forall|i: int|
            0 <= i < rs.len() ==> record_matches(#[trigger] rs[i], fs),
        _ => false,
    }
}

} // verus!
