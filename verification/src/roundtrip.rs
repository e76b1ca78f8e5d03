//! Round-trip guarantee of the wire codec: decoding an encoded payload gives
//! back exactly the values that were encoded, for every supported value shape
//! — primitives, strings, lists of primitives, records with mixed fields, and
//! lists of records.

use vstd::prelude::*;

use crate::json::digit_run_end;
use crate::json::digits_val;
use crate::json::is_digit;
use crate::json::is_ws;
use crate::json::spec_escape;
use crate::json::spec_parse_field;
use crate::json::spec_parse_fields_rest;
use crate::json::spec_parse_int;
use crate::json::spec_parse_item;
use crate::json::spec_parse_items_rest;
use crate::json::spec_parse_list;
use crate::json::spec_parse_payload;
use crate::json::spec_parse_record;
use crate::json::spec_parse_records_rest;
use crate::json::spec_parse_scalar;
use crate::json::spec_parse_scalars_rest;
use crate::json::spec_parse_strbody;
use crate::json::spec_ser_field;
use crate::json::spec_ser_fields;
use crate::json::spec_ser_int;
use crate::json::spec_ser_item;
use crate::json::spec_ser_items;
use crate::json::spec_ser_nat;
use crate::json::spec_ser_payload;
use crate::json::spec_ser_record;
use crate::json::spec_ser_records;
use crate::json::spec_ser_scalar;
use crate::json::spec_ser_scalars;
use crate::json::spec_skip_ws;
use crate::json::BACKSLASH;
use crate::json::COLON;
use crate::json::COMMA;
use crate::json::LBRACE;
use crate::json::LBRACKET;
use crate::json::MINUS;
use crate::json::QUOTE;
use crate::json::RBRACE;
use crate::json::RBRACKET;
use crate::value::SpecField;
use crate::value::SpecItem;
use crate::value::SpecRecord;
use crate::value::SpecScalar;

verus! {

/// A scalar whose integer, if any, fits the wire's integer range.
pub open spec fn wf_scalar(x: SpecScalar) -> bool {
    match x {
        SpecScalar::Int(i) => i64::MIN <= i <= i64::MAX,
        SpecScalar::Str(_) => true,
    }
}

pub open spec fn wf_record(r: SpecRecord) -> bool {
    forall|k: int| 0 <= k < r.fields.len() ==> wf_scalar((#[trigger] r.fields[k]).value)
}

pub open spec fn wf_item(v: SpecItem) -> bool {
    match v {
        SpecItem::Sc(x) => wf_scalar(x),
        SpecItem::Rec(r) => wf_record(r),
        SpecItem::ScList(xs) => forall|k: int| 0 <= k < xs.len() ==> wf_scalar(#[trigger] xs[k]),
        SpecItem::RecList(rs) => forall|k: int| 0 <= k < rs.len() ==> wf_record(#[trigger] rs[k]),
    }
}

pub open spec fn wf_items(items: Seq<SpecItem>) -> bool {
    forall|k: int| 0 <= k < items.len() ==> wf_item(#[trigger] items[k])
}

/// `x` is written at position `i` of `s`.
pub open spec fn at(s: Seq<u8>, i: int, x: Seq<u8>) -> bool {
    &&& 0 <= i
    &&& i + x.len() <= s.len()
    &&& s.subrange(i, i + x.len()) == x
}

/// No digit stands at position `j` (or `j` is the end): an integer written
/// just before `j` cannot run on.
pub open spec fn bnd(s: Seq<u8>, j: int) -> bool {
    j == s.len() || !is_digit(s[j])
}

proof fn lemma_at_app(s: Seq<u8>, i: int, x: Seq<u8>, y: Seq<u8>)
    requires
        at(s, i, x + y),
    ensures
        at(s, i, x),
        at(s, i + x.len(), y),
{
    let xy = x + y;
    assert forall|k: int| 0 <= k < x.len() implies s.subrange(i, i + x.len())[k] == x[k] by {
        assert(s.subrange(i, i + xy.len())[k] == s[i + k]);
        assert(s.subrange(i, i + x.len())[k] == s[i + k]);
    }
    assert(s.subrange(i, i + x.len()) =~= x);
    assert forall|k: int| 0 <= k < y.len() implies s.subrange(
        i + x.len(),
        i + x.len() + y.len(),
    )[k] == y[k] by {
        assert(s.subrange(i, i + xy.len())[x.len() + k] == s[i + x.len() + k]);
        assert(s.subrange(i + x.len(), i + x.len() + y.len())[k] == s[i + x.len() + k]);
        assert(xy[x.len() + k] == y[k]);
    }
    assert(s.subrange(i + x.len(), i + x.len() + y.len()) =~= y);
}

proof fn lemma_at_byte(s: Seq<u8>, i: int, x: Seq<u8>, k: int)
    requires
        at(s, i, x),
        0 <= k < x.len(),
    ensures
        s[i + k] == x[k],
{
    assert(s.subrange(i, i + x.len())[k] == s[i + k]);
}

/// The decimal form of `n` is nonempty, holds digits alone, and starts with
/// `0` only when `n` is zero.
proof fn lemma_ser_nat_shape(n: nat)
    ensures
        spec_ser_nat(n).len() >= 1,
        forall|k: int| 0 <= k < spec_ser_nat(n).len() ==> is_digit(#[trigger] spec_ser_nat(n)[k]),
        spec_ser_nat(n)[0] == 48 ==> n == 0,
        n < 10 ==> spec_ser_nat(n) == seq![(48 + n) as u8],
    decreases n,
{
    if n < 10 {
    } else {
        lemma_ser_nat_shape(n / 10);
        assert(spec_ser_nat(n) == spec_ser_nat(n / 10) + seq![(48 + n % 10) as u8]);
        assert(spec_ser_nat(n)[0] == spec_ser_nat(n / 10)[0]);
    }
}

/// The decimal form of an integer is nonempty and opens with a minus sign or
/// a digit — never whitespace, quote, bracket or brace.
proof fn lemma_ser_int_first(v: int)
    ensures
        spec_ser_int(v).len() >= 1,
        spec_ser_int(v)[0] == MINUS || is_digit(spec_ser_int(v)[0]),
{
    if v < 0 {
        lemma_ser_nat_shape((-v) as nat);
    } else {
        lemma_ser_nat_shape(v as nat);
    }
}

/// First byte of a serialized scalar: a quote, a minus sign, or a digit.
proof fn lemma_ser_scalar_first(x: SpecScalar)
    ensures
        spec_ser_scalar(x).len() >= 1,
        ({
            let f = spec_ser_scalar(x)[0];
            &&& !is_ws(f)
            &&& f != COMMA
            &&& f != RBRACKET
            &&& f != RBRACE
            &&& f != LBRACE
            &&& f != LBRACKET
        }),
{
    match x {
        SpecScalar::Int(v) => {
            lemma_ser_int_first(v);
        },
        SpecScalar::Str(b) => {
            assert(spec_ser_scalar(x)[0] == QUOTE);
        },
    }
}

/// First byte of a serialized item: an opening bracket or brace, or a scalar
/// opener — never whitespace, a comma, or a closing bracket.
proof fn lemma_ser_item_first(v: SpecItem)
    ensures
        spec_ser_item(v).len() >= 1,
        ({
            let f = spec_ser_item(v)[0];
            &&& !is_ws(f)
            &&& f != COMMA
            &&& f != RBRACKET
        }),
{
    match v {
        SpecItem::Sc(x) => {
            lemma_ser_scalar_first(x);
        },
        SpecItem::Rec(r) => {
            assert(spec_ser_item(v)[0] == LBRACE);
        },
        SpecItem::ScList(xs) => {
            assert(spec_ser_item(v)[0] == LBRACKET);
        },
        SpecItem::RecList(rs) => {
            assert(spec_ser_item(v)[0] == LBRACKET);
        },
    }
}

/// An escaped string body followed by a closing quote parses back to the
/// original bytes.
proof fn lemma_strbody_at(s: Seq<u8>, i: int, b: Seq<u8>)
    requires
        at(s, i, spec_escape(b) + seq![QUOTE]),
    ensures
        spec_parse_strbody(s, i) == Some((b, i + spec_escape(b).len() + 1)),
    decreases b.len(),
{
    let x = spec_escape(b) + seq![QUOTE];
    if b.len() == 0 {
        lemma_at_byte(s, i, x, 0);
        assert(x[0] == QUOTE);
        assert(s[i] == QUOTE);
        assert(b =~= Seq::<u8>::empty());
    } else {
        let b0 = b[0];
        let tail = b.drop_first();
        let head: Seq<u8> = if b0 == QUOTE || b0 == BACKSLASH {
            seq![BACKSLASH, b0]
        } else {
            seq![b0]
        };
        assert(spec_escape(b) == head + spec_escape(tail));
        assert((head + spec_escape(tail)) + seq![QUOTE] =~= head + (spec_escape(tail)
            + seq![QUOTE]));
        lemma_at_app(s, i, head, spec_escape(tail) + seq![QUOTE]);
        lemma_strbody_at(s, i + head.len(), tail);
        assert(seq![b0] + tail =~= b);
        if b0 == QUOTE || b0 == BACKSLASH {
            lemma_at_byte(s, i, x, 0);
            lemma_at_byte(s, i, x, 1);
            assert(x[0] == head[0] && x[1] == head[1]);
            assert(s[i] == BACKSLASH);
            assert(s[i + 1] == b0);
        } else {
            lemma_at_byte(s, i, x, 0);
            assert(x[0] == head[0]);
            assert(s[i] == b0);
        }
    }
}

/// All bytes of a region are digits and the next byte is none: the digit run
/// from its start ends exactly at its end.
proof fn lemma_run_end(s: Seq<u8>, i: int, j: int)
    requires
        0 <= i <= j <= s.len(),
        forall|k: int| i <= k < j ==> is_digit(#[trigger] s[k]),
        bnd(s, j),
    ensures
        digit_run_end(s, i) == j,
    decreases j - i,
{
    if i < j {
        lemma_run_end(s, i + 1, j);
    }
}

/// The decimal form of `n` written at `i` evaluates back to `n`.
proof fn lemma_digits_at(s: Seq<u8>, i: int, n: nat)
    requires
        at(s, i, spec_ser_nat(n)),
    ensures
        digits_val(s, i, i + spec_ser_nat(n).len()) == n,
    decreases n,
{
    lemma_ser_nat_shape(n);
    let x = spec_ser_nat(n);
    let len = x.len();
    if n < 10 {
        lemma_at_byte(s, i, x, 0);
        assert(s[i] == (48 + n) as u8);
        assert(digits_val(s, i, i) == 0);
        assert(digits_val(s, i, i + 1) == n);
    } else {
        assert(x == spec_ser_nat(n / 10) + seq![(48 + n % 10) as u8]);
        lemma_at_app(s, i, spec_ser_nat(n / 10), seq![(48 + n % 10) as u8]);
        lemma_digits_at(s, i, n / 10);
        lemma_at_byte(s, i, x, len - 1);
        assert(x[len - 1] == (48 + n % 10) as u8);
        assert(digits_val(s, i, i + len) == digits_val(s, i, i + len - 1) * 10 + (s[i + len - 1]
            - 48) as nat);
    }
}

/// The canonical decimal form of `v` written at `i` parses back to `v`.
proof fn lemma_int_at(s: Seq<u8>, i: int, v: int)
    requires
        i64::MIN <= v <= i64::MAX,
        at(s, i, spec_ser_int(v)),
        bnd(s, i + spec_ser_int(v).len()),
    ensures
        spec_parse_int(s, i) == Some((v, i + spec_ser_int(v).len())),
{
    let x = spec_ser_int(v);
    if v < 0 {
        let n = (-v) as nat;
        lemma_ser_nat_shape(n);
        let d = spec_ser_nat(n);
        let len = d.len();
        assert(x == seq![MINUS] + d);
        lemma_at_byte(s, i, x, 0);
        assert(x[0] == MINUS);
        lemma_at_app(s, i, seq![MINUS], d);
        assert forall|k: int| i + 1 <= k < i + 1 + len implies is_digit(#[trigger] s[k]) by {
            lemma_at_byte(s, i + 1, d, k - (i + 1));
        }
        lemma_run_end(s, i + 1, i + 1 + len);
        lemma_digits_at(s, i + 1, n);
        lemma_at_byte(s, i + 1, d, 0);
        assert(s[i + 1] == 48 ==> n == 0);
        assert(digit_run_end(s, i + 1) != i + 1);
    } else {
        let n = v as nat;
        lemma_ser_nat_shape(n);
        let len = spec_ser_nat(n).len();
        lemma_at_byte(s, i, x, 0);
        assert(s[i] != MINUS);
        assert forall|k: int| i <= k < i + len implies is_digit(#[trigger] s[k]) by {
            lemma_at_byte(s, i, x, k - i);
        }
        lemma_run_end(s, i, i + len);
        lemma_digits_at(s, i, n);
        assert(s[i] == 48 ==> n == 0);
        assert(digit_run_end(s, i) != i);
    }
}

/// A serialized scalar parses back to itself.
proof fn lemma_scalar_at(s: Seq<u8>, i: int, x: SpecScalar)
    requires
        wf_scalar(x),
        at(s, i, spec_ser_scalar(x)),
        bnd(s, i + spec_ser_scalar(x).len()),
    ensures
        spec_parse_scalar(s, i) == Some((x, i + spec_ser_scalar(x).len())),
{
    match x {
        SpecScalar::Str(b) => {
            let w = spec_ser_scalar(x);
            assert(w == seq![QUOTE] + spec_escape(b) + seq![QUOTE]);
            lemma_at_byte(s, i, w, 0);
            assert(w[0] == QUOTE);
            assert(s[i] == QUOTE);
            assert(w =~= seq![QUOTE] + (spec_escape(b) + seq![QUOTE]));
            lemma_at_app(s, i, seq![QUOTE], spec_escape(b) + seq![QUOTE]);
            lemma_strbody_at(s, i + 1, b);
        },
        SpecScalar::Int(v) => {
            lemma_ser_int_first(v);
            lemma_at_byte(s, i, spec_ser_scalar(x), 0);
            assert(s[i] != QUOTE);
            lemma_int_at(s, i, v);
        },
    }
}

/// What follows the first field of a serialized record: `,field` repeated,
/// then the closing brace.
pub open spec fn spec_ser_fields_rest(fs: Seq<SpecField>) -> Seq<u8>
    decreases fs.len(),
{
    if fs.len() == 0 {
        seq![RBRACE]
    } else {
        seq![COMMA] + spec_ser_field(fs[0]) + spec_ser_fields_rest(fs.drop_first())
    }
}

proof fn lemma_ser_fields_decomp(fs: Seq<SpecField>)
    requires
        fs.len() >= 1,
    ensures
        spec_ser_fields(fs) + seq![RBRACE] == spec_ser_field(fs[0]) + spec_ser_fields_rest(
            fs.drop_first(),
        ),
    decreases fs.len(),
{
    let rest = fs.drop_first();
    if fs.len() == 1 {
        assert(spec_ser_fields(fs) + seq![RBRACE] =~= spec_ser_field(fs[0]) + seq![RBRACE]);
    } else {
        lemma_ser_fields_decomp(rest);
        assert(spec_ser_fields(fs) == spec_ser_field(fs[0]) + seq![COMMA] + spec_ser_fields(rest));
        assert(spec_ser_fields_rest(rest) == seq![COMMA] + spec_ser_field(rest[0])
            + spec_ser_fields_rest(rest.drop_first()));
        assert(spec_ser_fields_rest(rest) =~= seq![COMMA] + (spec_ser_field(rest[0])
            + spec_ser_fields_rest(rest.drop_first())));
        assert(spec_ser_field(rest[0]) + spec_ser_fields_rest(rest.drop_first())
            == spec_ser_fields(rest) + seq![RBRACE]);
        assert(spec_ser_fields(fs) + seq![RBRACE] =~= spec_ser_field(fs[0]) + (seq![COMMA] + (
        spec_ser_fields(rest) + seq![RBRACE])));
        assert(spec_ser_field(fs[0]) + (seq![COMMA] + (spec_ser_fields(rest) + seq![RBRACE]))
            =~= spec_ser_field(fs[0]) + spec_ser_fields_rest(rest));
    }
}

/// The first byte of a rest-form is a comma or the closing brace.
proof fn lemma_fields_rest_first(fs: Seq<SpecField>)
    ensures
        spec_ser_fields_rest(fs).len() >= 1,
        spec_ser_fields_rest(fs)[0] == COMMA || spec_ser_fields_rest(fs)[0] == RBRACE,
{
}

/// The tail of a serialized record parses back to the remaining fields.
proof fn lemma_fields_rest_at(s: Seq<u8>, i: int, fs: Seq<SpecField>)
    requires
        forall|k: int| 0 <= k < fs.len() ==> wf_scalar((#[trigger] fs[k]).value),
        at(s, i, spec_ser_fields_rest(fs)),
    ensures
        spec_parse_fields_rest(s, i) == Some((fs, i + spec_ser_fields_rest(fs).len())),
    decreases fs.len(),
{
    let x = spec_ser_fields_rest(fs);
    lemma_at_byte(s, i, x, 0);
    if fs.len() == 0 {
        assert(s[i] == RBRACE);
        assert(!is_ws(s[i]));
        assert(spec_skip_ws(s, i) == i);
        assert(fs =~= Seq::<SpecField>::empty());
    } else {
        let f0 = fs[0];
        let rest = fs.drop_first();
        assert(x == seq![COMMA] + spec_ser_field(f0) + spec_ser_fields_rest(rest));
        assert(s[i] == COMMA);
        assert(spec_skip_ws(s, i) == i);
        assert(x =~= seq![COMMA] + (spec_ser_field(f0) + spec_ser_fields_rest(rest)));
        lemma_at_app(s, i, seq![COMMA], spec_ser_field(f0) + spec_ser_fields_rest(rest));
        lemma_at_app(s, i + 1, spec_ser_field(f0), spec_ser_fields_rest(rest));
        // the field begins right after the comma: its first byte is a quote
        lemma_at_byte(s, i + 1, spec_ser_field(f0), 0);
        assert(spec_ser_field(f0)[0] == QUOTE);
        assert(spec_skip_ws(s, i + 1) == i + 1);
        let jf = i + 1 + spec_ser_field(f0).len();
        lemma_fields_rest_first(rest);
        lemma_at_byte(s, jf, spec_ser_fields_rest(rest), 0);
        assert(bnd(s, jf));
        lemma_field_at(s, i + 1, f0);
        lemma_fields_rest_at(s, jf, rest);
        assert(seq![f0] + rest =~= fs);
    }
}

/// A serialized field parses back to itself.
proof fn lemma_field_at(s: Seq<u8>, i: int, f: SpecField)
    requires
        wf_scalar(f.value),
        at(s, i, spec_ser_field(f)),
        bnd(s, i + spec_ser_field(f).len()),
    ensures
        spec_parse_field(s, i) == Some((f, i + spec_ser_field(f).len())),
{
    let x = spec_ser_field(f);
    assert(x == seq![QUOTE] + spec_escape(f.name) + seq![QUOTE, COLON] + spec_ser_scalar(f.value));
    lemma_at_byte(s, i, x, 0);
    assert(s[i] == QUOTE);
    // regroup: quote, then the name body with its closing quote, then the
    // colon, then the scalar
    assert(x =~= seq![QUOTE] + ((spec_escape(f.name) + seq![QUOTE]) + (seq![COLON]
        + spec_ser_scalar(f.value))));
    lemma_at_app(
        s,
        i,
        seq![QUOTE],
        (spec_escape(f.name) + seq![QUOTE]) + (seq![COLON] + spec_ser_scalar(f.value)),
    );
    lemma_at_app(
        s,
        i + 1,
        spec_escape(f.name) + seq![QUOTE],
        seq![COLON] + spec_ser_scalar(f.value),
    );
    lemma_strbody_at(s, i + 1, f.name);
    let jc = i + 1 + spec_escape(f.name).len() + 1;
    lemma_at_app(s, jc, seq![COLON], spec_ser_scalar(f.value));
    lemma_at_byte(s, jc, seq![COLON], 0);
    assert(s[jc] == COLON);
    assert(spec_skip_ws(s, jc) == jc);
    lemma_ser_scalar_first(f.value);
    lemma_at_byte(s, jc + 1, spec_ser_scalar(f.value), 0);
    assert(spec_skip_ws(s, jc + 1) == jc + 1);
    lemma_scalar_at(s, jc + 1, f.value);
}

/// A serialized record parses back to itself.
proof fn lemma_record_at(s: Seq<u8>, i: int, r: SpecRecord)
    requires
        wf_record(r),
        at(s, i, spec_ser_record(r)),
    ensures
        spec_parse_record(s, i) == Some((r, i + spec_ser_record(r).len())),
{
    let x = spec_ser_record(r);
    let fs = r.fields;
    lemma_at_byte(s, i, x, 0);
    assert(x[0] == LBRACE);
    assert(s[i] == LBRACE);
    if fs.len() == 0 {
        assert(x =~= seq![LBRACE, RBRACE]);
        lemma_at_byte(s, i, x, 1);
        assert(s[i + 1] == RBRACE);
        assert(spec_skip_ws(s, i + 1) == i + 1);
        assert(SpecRecord { fields: Seq::empty() } =~= r);
    } else {
        lemma_ser_fields_decomp(fs);
        assert(x =~= seq![LBRACE] + (spec_ser_field(fs[0]) + spec_ser_fields_rest(
            fs.drop_first(),
        )));
        lemma_at_app(s, i, seq![LBRACE], spec_ser_field(fs[0]) + spec_ser_fields_rest(
            fs.drop_first(),
        ));
        lemma_at_app(s, i + 1, spec_ser_field(fs[0]), spec_ser_fields_rest(fs.drop_first()));
        lemma_at_byte(s, i + 1, spec_ser_field(fs[0]), 0);
        assert(spec_ser_field(fs[0])[0] == QUOTE);
        assert(spec_skip_ws(s, i + 1) == i + 1);
        let jf = i + 1 + spec_ser_field(fs[0]).len();
        lemma_fields_rest_first(fs.drop_first());
        lemma_at_byte(s, jf, spec_ser_fields_rest(fs.drop_first()), 0);
        assert(bnd(s, jf));
        lemma_field_at(s, i + 1, fs[0]);
        lemma_fields_rest_at(s, jf, fs.drop_first());
        assert(seq![fs[0]] + fs.drop_first() =~= fs);
        assert(SpecRecord { fields: seq![fs[0]] + fs.drop_first() } =~= r);
    }
}

/// What follows the first element of a serialized scalar list.
pub open spec fn spec_ser_scalars_rest(xs: Seq<SpecScalar>) -> Seq<u8>
    decreases xs.len(),
{
    if xs.len() == 0 {
        seq![RBRACKET]
    } else {
        seq![COMMA] + spec_ser_scalar(xs[0]) + spec_ser_scalars_rest(xs.drop_first())
    }
}

proof fn lemma_ser_scalars_decomp(xs: Seq<SpecScalar>)
    requires
        xs.len() >= 1,
    ensures
        spec_ser_scalars(xs) + seq![RBRACKET] == spec_ser_scalar(xs[0]) + spec_ser_scalars_rest(
            xs.drop_first(),
        ),
    decreases xs.len(),
{
    let rest = xs.drop_first();
    if xs.len() == 1 {
        assert(spec_ser_scalars(xs) + seq![RBRACKET] =~= spec_ser_scalar(xs[0]) + seq![RBRACKET]);
    } else {
        lemma_ser_scalars_decomp(rest);
        assert(spec_ser_scalars(xs) == spec_ser_scalar(xs[0]) + seq![COMMA] + spec_ser_scalars(
            rest,
        ));
        assert(spec_ser_scalars_rest(rest) =~= seq![COMMA] + (spec_ser_scalar(rest[0])
            + spec_ser_scalars_rest(rest.drop_first())));
        assert(spec_ser_scalars(xs) + seq![RBRACKET] =~= spec_ser_scalar(xs[0]) + (seq![COMMA] + (
        spec_ser_scalars(rest) + seq![RBRACKET])));
        assert(spec_ser_scalar(xs[0]) + (seq![COMMA] + (spec_ser_scalars(rest) + seq![RBRACKET]))
            =~= spec_ser_scalar(xs[0]) + spec_ser_scalars_rest(rest));
    }
}

proof fn lemma_scalars_rest_first(xs: Seq<SpecScalar>)
    ensures
        spec_ser_scalars_rest(xs).len() >= 1,
        spec_ser_scalars_rest(xs)[0] == COMMA || spec_ser_scalars_rest(xs)[0] == RBRACKET,
{
}

/// The tail of a serialized scalar list parses back to the remaining scalars.
proof fn lemma_scalars_rest_at(s: Seq<u8>, i: int, xs: Seq<SpecScalar>)
    requires
        forall|k: int| 0 <= k < xs.len() ==> wf_scalar(#[trigger] xs[k]),
        at(s, i, spec_ser_scalars_rest(xs)),
    ensures
        spec_parse_scalars_rest(s, i) == Some((xs, i + spec_ser_scalars_rest(xs).len())),
    decreases xs.len(),
{
    let x = spec_ser_scalars_rest(xs);
    lemma_at_byte(s, i, x, 0);
    if xs.len() == 0 {
        assert(s[i] == RBRACKET);
        assert(spec_skip_ws(s, i) == i);
        assert(xs =~= Seq::<SpecScalar>::empty());
    } else {
        let x0 = xs[0];
        let rest = xs.drop_first();
        assert(x == seq![COMMA] + spec_ser_scalar(x0) + spec_ser_scalars_rest(rest));
        assert(s[i] == COMMA);
        assert(spec_skip_ws(s, i) == i);
        assert(x =~= seq![COMMA] + (spec_ser_scalar(x0) + spec_ser_scalars_rest(rest)));
        lemma_at_app(s, i, seq![COMMA], spec_ser_scalar(x0) + spec_ser_scalars_rest(rest));
        lemma_at_app(s, i + 1, spec_ser_scalar(x0), spec_ser_scalars_rest(rest));
        lemma_ser_scalar_first(x0);
        lemma_at_byte(s, i + 1, spec_ser_scalar(x0), 0);
        assert(spec_skip_ws(s, i + 1) == i + 1);
        let jn = i + 1 + spec_ser_scalar(x0).len();
        lemma_scalars_rest_first(rest);
        lemma_at_byte(s, jn, spec_ser_scalars_rest(rest), 0);
        assert(bnd(s, jn));
        lemma_scalar_at(s, i + 1, x0);
        lemma_scalars_rest_at(s, jn, rest);
        assert(seq![x0] + rest =~= xs);
    }
}

/// What follows the first element of a serialized record list.
pub open spec fn spec_ser_records_rest(rs: Seq<SpecRecord>) -> Seq<u8>
    decreases rs.len(),
{
    if rs.len() == 0 {
        seq![RBRACKET]
    } else {
        seq![COMMA] + spec_ser_record(rs[0]) + spec_ser_records_rest(rs.drop_first())
    }
}

proof fn lemma_ser_records_decomp(rs: Seq<SpecRecord>)
    requires
        rs.len() >= 1,
    ensures
        spec_ser_records(rs) + seq![RBRACKET] == spec_ser_record(rs[0]) + spec_ser_records_rest(
            rs.drop_first(),
        ),
    decreases rs.len(),
{
    let rest = rs.drop_first();
    if rs.len() == 1 {
        assert(spec_ser_records(rs) + seq![RBRACKET] =~= spec_ser_record(rs[0]) + seq![RBRACKET]);
    } else {
        lemma_ser_records_decomp(rest);
        assert(spec_ser_records(rs) == spec_ser_record(rs[0]) + seq![COMMA] + spec_ser_records(
            rest,
        ));
        assert(spec_ser_records_rest(rest) =~= seq![COMMA] + (spec_ser_record(rest[0])
            + spec_ser_records_rest(rest.drop_first())));
        assert(spec_ser_records(rs) + seq![RBRACKET] =~= spec_ser_record(rs[0]) + (seq![COMMA] + (
        spec_ser_records(rest) + seq![RBRACKET])));
        assert(spec_ser_record(rs[0]) + (seq![COMMA] + (spec_ser_records(rest) + seq![RBRACKET]))
            =~= spec_ser_record(rs[0]) + spec_ser_records_rest(rest));
    }
}

proof fn lemma_records_rest_first(rs: Seq<SpecRecord>)
    ensures
        spec_ser_records_rest(rs).len() >= 1,
        spec_ser_records_rest(rs)[0] == COMMA || spec_ser_records_rest(rs)[0] == RBRACKET,
{
}

/// The tail of a serialized record list parses back to the remaining records.
proof fn lemma_records_rest_at(s: Seq<u8>, i: int, rs: Seq<SpecRecord>)
    requires
        forall|k: int| 0 <= k < rs.len() ==> wf_record(#[trigger] rs[k]),
        at(s, i, spec_ser_records_rest(rs)),
    ensures
        spec_parse_records_rest(s, i) == Some((rs, i + spec_ser_records_rest(rs).len())),
    decreases rs.len(),
{
    let x = spec_ser_records_rest(rs);
    lemma_at_byte(s, i, x, 0);
    if rs.len() == 0 {
        assert(s[i] == RBRACKET);
        assert(spec_skip_ws(s, i) == i);
        assert(rs =~= Seq::<SpecRecord>::empty());
    } else {
        let r0 = rs[0];
        let rest = rs.drop_first();
        assert(x == seq![COMMA] + spec_ser_record(r0) + spec_ser_records_rest(rest));
        assert(s[i] == COMMA);
        assert(spec_skip_ws(s, i) == i);
        assert(x =~= seq![COMMA] + (spec_ser_record(r0) + spec_ser_records_rest(rest)));
        lemma_at_app(s, i, seq![COMMA], spec_ser_record(r0) + spec_ser_records_rest(rest));
        lemma_at_app(s, i + 1, spec_ser_record(r0), spec_ser_records_rest(rest));
        lemma_at_byte(s, i + 1, spec_ser_record(r0), 0);
        assert(spec_ser_record(r0)[0] == LBRACE);
        assert(spec_skip_ws(s, i + 1) == i + 1);
        let jn = i + 1 + spec_ser_record(r0).len();
        lemma_record_at(s, i + 1, r0);
        lemma_records_rest_at(s, jn, rest);
        assert(seq![r0] + rest =~= rs);
    }
}

/// An item whose wire form is unambiguous: an empty list of records would
/// encode as `[]`, which decodes as an empty list of scalars, so the
/// round-trip guarantee asks record lists to be nonempty.
pub open spec fn canonical_item(v: SpecItem) -> bool {
    match v {
        SpecItem::RecList(rs) => rs.len() > 0,
        _ => true,
    }
}

pub open spec fn canonical_items(items: Seq<SpecItem>) -> bool {
    forall|k: int| 0 <= k < items.len() ==> canonical_item(#[trigger] items[k])
}

/// A serialized item parses back to itself.
proof fn lemma_item_at(s: Seq<u8>, i: int, v: SpecItem)
    requires
        wf_item(v),
        canonical_item(v),
        at(s, i, spec_ser_item(v)),
        bnd(s, i + spec_ser_item(v).len()),
    ensures
        spec_parse_item(s, i) == Some((v, i + spec_ser_item(v).len())),
{
    let x = spec_ser_item(v);
    lemma_at_byte(s, i, x, 0);
    match v {
        SpecItem::Sc(sc) => {
            lemma_ser_scalar_first(sc);
            assert(s[i] != LBRACKET && s[i] != LBRACE);
            lemma_scalar_at(s, i, sc);
        },
        SpecItem::Rec(r) => {
            assert(spec_ser_record(r)[0] == LBRACE);
            assert(s[i] == LBRACE);
            assert(s[i] != LBRACKET);
            lemma_record_at(s, i, r);
        },
        SpecItem::ScList(xs) => {
            assert(s[i] == LBRACKET);
            if xs.len() == 0 {
                assert(x =~= seq![LBRACKET, RBRACKET]);
                lemma_at_byte(s, i, x, 1);
                assert(s[i + 1] == RBRACKET);
                assert(spec_skip_ws(s, i + 1) == i + 1);
                assert(SpecItem::ScList(Seq::<SpecScalar>::empty()) =~= v);
            } else {
                lemma_ser_scalars_decomp(xs);
                assert(x =~= seq![LBRACKET] + (spec_ser_scalar(xs[0]) + spec_ser_scalars_rest(
                    xs.drop_first(),
                )));
                lemma_at_app(s, i, seq![LBRACKET], spec_ser_scalar(xs[0])
                    + spec_ser_scalars_rest(xs.drop_first()));
                lemma_at_app(s, i + 1, spec_ser_scalar(xs[0]), spec_ser_scalars_rest(
                    xs.drop_first(),
                ));
                lemma_ser_scalar_first(xs[0]);
                lemma_at_byte(s, i + 1, spec_ser_scalar(xs[0]), 0);
                assert(spec_skip_ws(s, i + 1) == i + 1);
                let jn = i + 1 + spec_ser_scalar(xs[0]).len();
                lemma_scalars_rest_first(xs.drop_first());
                lemma_at_byte(s, jn, spec_ser_scalars_rest(xs.drop_first()), 0);
                assert(bnd(s, jn));
                lemma_scalar_at(s, i + 1, xs[0]);
                lemma_scalars_rest_at(s, jn, xs.drop_first());
                assert(seq![xs[0]] + xs.drop_first() =~= xs);
                assert(SpecItem::ScList(seq![xs[0]] + xs.drop_first()) =~= v);
            }
        },
        SpecItem::RecList(rs) => {
            assert(s[i] == LBRACKET);
            lemma_ser_records_decomp(rs);
            assert(x =~= seq![LBRACKET] + (spec_ser_record(rs[0]) + spec_ser_records_rest(
                rs.drop_first(),
            )));
            lemma_at_app(s, i, seq![LBRACKET], spec_ser_record(rs[0]) + spec_ser_records_rest(
                rs.drop_first(),
            ));
            lemma_at_app(s, i + 1, spec_ser_record(rs[0]), spec_ser_records_rest(rs.drop_first()));
            lemma_at_byte(s, i + 1, spec_ser_record(rs[0]), 0);
            assert(spec_ser_record(rs[0])[0] == LBRACE);
            assert(spec_skip_ws(s, i + 1) == i + 1);
            let jn = i + 1 + spec_ser_record(rs[0]).len();
            lemma_record_at(s, i + 1, rs[0]);
            lemma_records_rest_at(s, jn, rs.drop_first());
            assert(seq![rs[0]] + rs.drop_first() =~= rs);
            assert(SpecItem::RecList(seq![rs[0]] + rs.drop_first()) =~= v);
        },
    }
}

/// What follows the first element of the serialized payload array.
pub open spec fn spec_ser_items_rest(items: Seq<SpecItem>) -> Seq<u8>
    decreases items.len(),
{
    if items.len() == 0 {
        seq![RBRACKET]
    } else {
        seq![COMMA] + spec_ser_item(items[0]) + spec_ser_items_rest(items.drop_first())
    }
}

proof fn lemma_ser_items_decomp(items: Seq<SpecItem>)
    requires
        items.len() >= 1,
    ensures
        spec_ser_items(items) + seq![RBRACKET] == spec_ser_item(items[0]) + spec_ser_items_rest(
            items.drop_first(),
        ),
    decreases items.len(),
{
    let rest = items.drop_first();
    if items.len() == 1 {
        assert(spec_ser_items(items) + seq![RBRACKET] =~= spec_ser_item(items[0])
            + seq![RBRACKET]);
    } else {
        lemma_ser_items_decomp(rest);
        assert(spec_ser_items(items) == spec_ser_item(items[0]) + seq![COMMA] + spec_ser_items(
            rest,
        ));
        assert(spec_ser_items_rest(rest) =~= seq![COMMA] + (spec_ser_item(rest[0])
            + spec_ser_items_rest(rest.drop_first())));
        assert(spec_ser_items(items) + seq![RBRACKET] =~= spec_ser_item(items[0]) + (seq![COMMA]
            + (spec_ser_items(rest) + seq![RBRACKET])));
        assert(spec_ser_item(items[0]) + (seq![COMMA] + (spec_ser_items(rest) + seq![RBRACKET]))
            =~= spec_ser_item(items[0]) + spec_ser_items_rest(rest));
    }
}

proof fn lemma_items_rest_first(items: Seq<SpecItem>)
    ensures
        spec_ser_items_rest(items).len() >= 1,
        spec_ser_items_rest(items)[0] == COMMA || spec_ser_items_rest(items)[0] == RBRACKET,
{
}

/// The tail of the serialized payload parses back to the remaining items.
proof fn lemma_items_rest_at(s: Seq<u8>, i: int, items: Seq<SpecItem>)
    requires
        wf_items(items),
        canonical_items(items),
        at(s, i, spec_ser_items_rest(items)),
    ensures
        spec_parse_items_rest(s, i) == Some((items, i + spec_ser_items_rest(items).len())),
    decreases items.len(),
{
    let x = spec_ser_items_rest(items);
    lemma_at_byte(s, i, x, 0);
    if items.len() == 0 {
        assert(s[i] == RBRACKET);
        assert(spec_skip_ws(s, i) == i);
        assert(items =~= Seq::<SpecItem>::empty());
    } else {
        let v0 = items[0];
        let rest = items.drop_first();
        assert(x == seq![COMMA] + spec_ser_item(v0) + spec_ser_items_rest(rest));
        assert(s[i] == COMMA);
        assert(spec_skip_ws(s, i) == i);
        assert(x =~= seq![COMMA] + (spec_ser_item(v0) + spec_ser_items_rest(rest)));
        lemma_at_app(s, i, seq![COMMA], spec_ser_item(v0) + spec_ser_items_rest(rest));
        lemma_at_app(s, i + 1, spec_ser_item(v0), spec_ser_items_rest(rest));
        lemma_ser_item_first(v0);
        lemma_at_byte(s, i + 1, spec_ser_item(v0), 0);
        assert(spec_skip_ws(s, i + 1) == i + 1);
        let jn = i + 1 + spec_ser_item(v0).len();
        lemma_items_rest_first(rest);
        lemma_at_byte(s, jn, spec_ser_items_rest(rest), 0);
        assert(bnd(s, jn));
        lemma_item_at(s, i + 1, v0);
        lemma_items_rest_at(s, jn, rest);
        assert(seq![v0] + rest =~= items);
    }
}

/// Round trip of the wire codec: decoding an encoded payload yields exactly
/// the encoded items, for every payload of well-formed items — each integer
/// in the wire's range, each list of records nonempty.  An empty list of
/// records and an empty list of scalars share the wire form `[]`, so the
/// decoder returns the latter tag; the bytes, and so everything a caller of
/// the shape-driven protocol can observe, are identical either way.
pub proof fn lemma_payload_round_trip(items: Seq<SpecItem>)
    requires
        wf_items(items),
        canonical_items(items),
    ensures
        spec_parse_payload(spec_ser_payload(items)) == Some(items),
{
    let s = spec_ser_payload(items);
    assert(s == seq![LBRACKET] + spec_ser_items(items) + seq![RBRACKET]);
    assert(at(s, 0, s)) by {
        assert(s.subrange(0, s.len() as int) =~= s);
    }
    lemma_at_byte(s, 0, s, 0);
    assert(s[0] == LBRACKET);
    assert(spec_skip_ws(s, 0) == 0);
    if items.len() == 0 {
        assert(s =~= seq![LBRACKET, RBRACKET]);
        lemma_at_byte(s, 0, s, 1);
        assert(s[1] == RBRACKET);
        assert(spec_skip_ws(s, 1) == 1);
        assert(spec_skip_ws(s, 2) == 2);
        assert(items =~= Seq::<SpecItem>::empty());
    } else {
        lemma_ser_items_decomp(items);
        assert(s =~= seq![LBRACKET] + (spec_ser_item(items[0]) + spec_ser_items_rest(
            items.drop_first(),
        )));
        lemma_at_app(s, 0, seq![LBRACKET], spec_ser_item(items[0]) + spec_ser_items_rest(
            items.drop_first(),
        ));
        lemma_at_app(s, 1, spec_ser_item(items[0]), spec_ser_items_rest(items.drop_first()));
        lemma_ser_item_first(items[0]);
        lemma_at_byte(s, 1, spec_ser_item(items[0]), 0);
        assert(spec_skip_ws(s, 1) == 1);
        assert(s[1] != RBRACKET);
        let jn: int = 1 + spec_ser_item(items[0]).len() as int;
        lemma_items_rest_first(items.drop_first());
        lemma_at_byte(s, jn, spec_ser_items_rest(items.drop_first()), 0);
        assert(bnd(s, jn));
        lemma_item_at(s, 1, items[0]);
        lemma_items_rest_at(s, jn, items.drop_first());
        let end: int = jn + spec_ser_items_rest(items.drop_first()).len();
        assert(end == s.len());
        assert(spec_skip_ws(s, end) == end);
        assert(seq![items[0]] + items.drop_first() =~= items);
    }
}

} // verus!
