//! The wire codec of the dispatch protocol.  A payload is a JSON array whose
//! elements are positional, typed arguments; a result is a singleton JSON
//! array wrapping the return value.  The encoder is canonical (no whitespace,
//! no leading zeros, only the two escapes `\"` and `\\`); the decoder is
//! lenient about whitespace between tokens but rejects everything the
//! protocol cannot type: a decode failure is fatal for the call.
//!
//! The string values this codec carries are raw bytes.  It implements the
//! JSON subset those two escapes span: the encoder writes every other byte
//! through unchanged — so a control byte in a string value is emitted
//! verbatim, where standard JSON would demand `\u` notation — and the
//! decoder rejects the escapes it never writes (`\n`, `\t`, `\uXXXX`, ...)
//! as it rejects every other construct outside the protocol's value shapes.
//! Round trip over this subset is total and proved; text from foreign
//! producers is accepted exactly when it stays inside the subset.

use vstd::prelude::*;

use crate::value::FieldVal;
use crate::value::Item;
use crate::value::RecordVal;
use crate::value::Scalar;
use crate::value::SpecField;
use crate::value::SpecItem;
use crate::value::SpecRecord;
use crate::value::SpecScalar;

verus! {

pub const QUOTE: u8 = 34;

pub const BACKSLASH: u8 = 92;

pub const COMMA: u8 = 44;

pub const COLON: u8 = 58;

pub const MINUS: u8 = 45;

pub const LBRACKET: u8 = 91;

pub const RBRACKET: u8 = 93;

pub const LBRACE: u8 = 123;

pub const RBRACE: u8 = 125;

/// Decimal digits of `n`, most significant first.
pub open spec fn spec_ser_nat(n: nat) -> Seq<u8>
    decreases n,
{
    if n < 10 {
        seq![(48 + n) as u8]
    } else {
        spec_ser_nat(n / 10) + seq![(48 + n % 10) as u8]
    }
}

/// Canonical decimal form of an integer: a minus sign for negative values,
/// then the digits without leading zeros.
pub open spec fn spec_ser_int(i: int) -> Seq<u8> {
    if i < 0 {
        seq![MINUS] + spec_ser_nat((-i) as nat)
    } else {
        spec_ser_nat(i as nat)
    }
}

/// String-body encoding: every byte passes through unchanged except `"` and
/// `\`, which are preceded by a backslash.
pub open spec fn spec_escape(s: Seq<u8>) -> Seq<u8>
    decreases s.len(),
{
    if s.len() == 0 {
        Seq::empty()
    } else {
        let head: Seq<u8> = if s[0] == QUOTE || s[0] == BACKSLASH {
            seq![BACKSLASH, s[0]]
        } else {
            seq![s[0]]
        };
        head + spec_escape(s.drop_first())
    }
}

pub open spec fn spec_ser_scalar(v: SpecScalar) -> Seq<u8> {
    match v {
        SpecScalar::Int(i) => spec_ser_int(i),
        SpecScalar::Str(s) => seq![QUOTE] + spec_escape(s) + seq![QUOTE],
    }
}

pub open spec fn spec_ser_field(f: SpecField) -> Seq<u8> {
    seq![QUOTE] + spec_escape(f.name) + seq![QUOTE, COLON] + spec_ser_scalar(f.value)
}

pub open spec fn spec_ser_fields(fs: Seq<SpecField>) -> Seq<u8>
    decreases fs.len(),
{
    if fs.len() == 0 {
        Seq::empty()
    } else if fs.len() == 1 {
        spec_ser_field(fs[0])
    } else {
        spec_ser_field(fs[0]) + seq![COMMA] + spec_ser_fields(fs.drop_first())
    }
}

pub open spec fn spec_ser_record(r: SpecRecord) -> Seq<u8> {
    seq![LBRACE] + spec_ser_fields(r.fields) + seq![RBRACE]
}

pub open spec fn spec_ser_scalars(xs: Seq<SpecScalar>) -> Seq<u8>
    decreases xs.len(),
{
    if xs.len() == 0 {
        Seq::empty()
    } else if xs.len() == 1 {
        spec_ser_scalar(xs[0])
    } else {
        spec_ser_scalar(xs[0]) + seq![COMMA] + spec_ser_scalars(xs.drop_first())
    }
}

pub open spec fn spec_ser_records(rs: Seq<SpecRecord>) -> Seq<u8>
    decreases rs.len(),
{
    if rs.len() == 0 {
        Seq::empty()
    } else if rs.len() == 1 {
        spec_ser_record(rs[0])
    } else {
        spec_ser_record(rs[0]) + seq![COMMA] + spec_ser_records(rs.drop_first())
    }
}

pub open spec fn spec_ser_item(v: SpecItem) -> Seq<u8> {
    match v {
        SpecItem::Sc(x) => spec_ser_scalar(x),
        SpecItem::Rec(r) => spec_ser_record(r),
        SpecItem::ScList(xs) => seq![LBRACKET] + spec_ser_scalars(xs) + seq![RBRACKET],
        SpecItem::RecList(rs) => seq![LBRACKET] + spec_ser_records(rs) + seq![RBRACKET],
    }
}

pub open spec fn spec_ser_items(items: Seq<SpecItem>) -> Seq<u8>
    decreases items.len(),
{
    if items.len() == 0 {
        Seq::empty()
    } else if items.len() == 1 {
        spec_ser_item(items[0])
    } else {
        spec_ser_item(items[0]) + seq![COMMA] + spec_ser_items(items.drop_first())
    }
}

/// The whole wire form: arguments or the wrapped result as one JSON array.
pub open spec fn spec_ser_payload(items: Seq<SpecItem>) -> Seq<u8> {
    seq![LBRACKET] + spec_ser_items(items) + seq![RBRACKET]
}

pub open spec fn is_ws(b: u8) -> bool {
    b == 32 || b == 9 || b == 10 || b == 13
}

pub open spec fn is_digit(b: u8) -> bool {
    48 <= b && b <= 57
}

/// First index at or after `i` that does not hold whitespace.
pub open spec fn spec_skip_ws(s: Seq<u8>, i: int) -> int
    decreases s.len() - i,
{
    if 0 <= i < s.len() && is_ws(s[i]) {
        spec_skip_ws(s, i + 1)
    } else {
        i
    }
}

/// End of the digit run that starts at `i`.
pub open spec fn digit_run_end(s: Seq<u8>, i: int) -> int
    decreases s.len() - i,
{
    if 0 <= i < s.len() && is_digit(s[i]) {
        digit_run_end(s, i + 1)
    } else {
        i
    }
}

/// Value of the digits `s[i .. j)`.
pub open spec fn digits_val(s: Seq<u8>, i: int, j: int) -> nat
    decreases j - i,
{
    if j <= i {
        0
    } else {
        digits_val(s, i, j - 1) * 10 + (s[j - 1] - 48) as nat
    }
}

/// An integer at `i`: optional minus sign, then digits with no leading zero,
/// in the value range of `i64`.
pub open spec fn spec_parse_int(s: Seq<u8>, i: int) -> Option<(int, int)> {
    if 0 <= i < s.len() && s[i] == MINUS {
        spec_parse_digits(s, i + 1, true)
    } else {
        spec_parse_digits(s, i, false)
    }
}

pub open spec fn spec_parse_digits(s: Seq<u8>, i: int, neg: bool) -> Option<(int, int)> {
    let j = digit_run_end(s, i);
    if j == i {
        None
    } else if s[i] == 48 && j > i + 1 {
        None
    } else {
        let v: int = if neg {
            -(digits_val(s, i, j) as int)
        } else {
            digits_val(s, i, j) as int
        };
        if v < i64::MIN || v > i64::MAX {
            None
        } else {
            Some((v, j))
        }
    }
}

/// A string body at `i` (the opening quote already consumed): bytes up to the
/// closing quote, with `\"` and `\\` as the only escapes.  Returns the
/// contents and the index after the closing quote.
pub open spec fn spec_parse_strbody(s: Seq<u8>, i: int) -> Option<(Seq<u8>, int)>
    decreases s.len() - i,
{
    if i < 0 || i >= s.len() {
        None
    } else if s[i] == QUOTE {
        Some((Seq::empty(), i + 1))
    } else if s[i] == BACKSLASH {
        if i + 1 < s.len() && (s[i + 1] == QUOTE || s[i + 1] == BACKSLASH) {
            match spec_parse_strbody(s, i + 2) {
                None => None,
                Some((t, j)) => Some((seq![s[i + 1]] + t, j)),
            }
        } else {
            None
        }
    } else {
        match spec_parse_strbody(s, i + 1) {
            None => None,
            Some((t, j)) => Some((seq![s[i]] + t, j)),
        }
    }
}

/// A scalar at `i`: a string if a quote stands there, else an integer.
pub open spec fn spec_parse_scalar(s: Seq<u8>, i: int) -> Option<(SpecScalar, int)> {
    if 0 <= i < s.len() && s[i] == QUOTE {
        match spec_parse_strbody(s, i + 1) {
            None => None,
            Some((b, j)) => Some((SpecScalar::Str(b), j)),
        }
    } else {
        match spec_parse_int(s, i) {
            None => None,
            Some((v, j)) => Some((SpecScalar::Int(v), j)),
        }
    }
}

/// One `"name": scalar` pair at `i`.
pub open spec fn spec_parse_field(s: Seq<u8>, i: int) -> Option<(SpecField, int)> {
    if 0 <= i < s.len() && s[i] == QUOTE {
        match spec_parse_strbody(s, i + 1) {
            None => None,
            Some((nm, j)) => {
                let j1 = spec_skip_ws(s, j);
                if j1 < s.len() && s[j1] == COLON {
                    let j2 = spec_skip_ws(s, j1 + 1);
                    match spec_parse_scalar(s, j2) {
                        None => None,
                        Some((v, j3)) => Some((SpecField { name: nm, value: v }, j3)),
                    }
                } else {
                    None
                }
            },
        }
    } else {
        None
    }
}

/// The remaining fields of a record, the first one already parsed: either a
/// closing brace, or a comma and one more field, repeatedly.
pub open spec fn spec_parse_fields_rest(s: Seq<u8>, i: int) -> Option<(Seq<SpecField>, int)>
    decreases s.len() - i,
{
    let j = spec_skip_ws(s, i);
    if j < s.len() && s[j] == RBRACE {
        Some((Seq::empty(), j + 1))
    } else if j < s.len() && s[j] == COMMA {
        let j1 = spec_skip_ws(s, j + 1);
        match spec_parse_field(s, j1) {
            None => None,
            Some((f, j2)) => if i < j2 <= s.len() {
                match spec_parse_fields_rest(s, j2) {
                    None => None,
                    Some((fs, j3)) => Some((seq![f] + fs, j3)),
                }
            } else {
                None
            },
        }
    } else {
        None
    }
}

/// A record at `i`: `{`, fields, `}`.
pub open spec fn spec_parse_record(s: Seq<u8>, i: int) -> Option<(SpecRecord, int)> {
    if 0 <= i < s.len() && s[i] == LBRACE {
        let j = spec_skip_ws(s, i + 1);
        if j < s.len() && s[j] == RBRACE {
            Some((SpecRecord { fields: Seq::empty() }, j + 1))
        } else {
            match spec_parse_field(s, j) {
                None => None,
                Some((f, j2)) => match spec_parse_fields_rest(s, j2) {
                    None => None,
                    Some((fs, j3)) => Some((SpecRecord { fields: seq![f] + fs }, j3)),
                },
            }
        }
    } else {
        None
    }
}

/// The remaining scalars of a list, the first one already parsed.
pub open spec fn spec_parse_scalars_rest(s: Seq<u8>, i: int) -> Option<(Seq<SpecScalar>, int)>
    decreases s.len() - i,
{
    let j = spec_skip_ws(s, i);
    if j < s.len() && s[j] == RBRACKET {
        Some((Seq::empty(), j + 1))
    } else if j < s.len() && s[j] == COMMA {
        let j1 = spec_skip_ws(s, j + 1);
        match spec_parse_scalar(s, j1) {
            None => None,
            Some((x, j2)) => if i < j2 <= s.len() {
                match spec_parse_scalars_rest(s, j2) {
                    None => None,
                    Some((xs, j3)) => Some((seq![x] + xs, j3)),
                }
            } else {
                None
            },
        }
    } else {
        None
    }
}

/// The remaining records of a list, the first one already parsed.
pub open spec fn spec_parse_records_rest(s: Seq<u8>, i: int) -> Option<(Seq<SpecRecord>, int)>
    decreases s.len() - i,
{
    let j = spec_skip_ws(s, i);
    if j < s.len() && s[j] == RBRACKET {
        Some((Seq::empty(), j + 1))
    } else if j < s.len() && s[j] == COMMA {
        let j1 = spec_skip_ws(s, j + 1);
        match spec_parse_record(s, j1) {
            None => None,
            Some((r, j2)) => if i < j2 <= s.len() {
                match spec_parse_records_rest(s, j2) {
                    None => None,
                    Some((rs, j3)) => Some((seq![r] + rs, j3)),
                }
            } else {
                None
            },
        }
    } else {
        None
    }
}

/// A list at `i`: empty, a list of records if the first element opens with a
/// brace, else a list of scalars.
pub open spec fn spec_parse_list(s: Seq<u8>, i: int) -> Option<(SpecItem, int)> {
    if 0 <= i < s.len() && s[i] == LBRACKET {
        let j = spec_skip_ws(s, i + 1);
        if j < s.len() && s[j] == RBRACKET {
            Some((SpecItem::ScList(Seq::empty()), j + 1))
        } else if j < s.len() && s[j] == LBRACE {
            match spec_parse_record(s, j) {
                None => None,
                Some((r, j2)) => match spec_parse_records_rest(s, j2) {
                    None => None,
                    Some((rs, j3)) => Some((SpecItem::RecList(seq![r] + rs), j3)),
                },
            }
        } else {
            match spec_parse_scalar(s, j) {
                None => None,
                Some((x, j2)) => match spec_parse_scalars_rest(s, j2) {
                    None => None,
                    Some((xs, j3)) => Some((SpecItem::ScList(seq![x] + xs), j3)),
                },
            }
        }
    } else {
        None
    }
}

/// One payload element at `i`: a list, a record, or a scalar.
pub open spec fn spec_parse_item(s: Seq<u8>, i: int) -> Option<(SpecItem, int)> {
    if 0 <= i < s.len() && s[i] == LBRACKET {
        spec_parse_list(s, i)
    } else if 0 <= i < s.len() && s[i] == LBRACE {
        match spec_parse_record(s, i) {
            None => None,
            Some((r, j)) => Some((SpecItem::Rec(r), j)),
        }
    } else {
        match spec_parse_scalar(s, i) {
            None => None,
            Some((x, j)) => Some((SpecItem::Sc(x), j)),
        }
    }
}

/// The remaining elements of the payload array, the first one already parsed.
pub open spec fn spec_parse_items_rest(s: Seq<u8>, i: int) -> Option<(Seq<SpecItem>, int)>
    decreases s.len() - i,
{
    let j = spec_skip_ws(s, i);
    if j < s.len() && s[j] == RBRACKET {
        Some((Seq::empty(), j + 1))
    } else if j < s.len() && s[j] == COMMA {
        let j1 = spec_skip_ws(s, j + 1);
        match spec_parse_item(s, j1) {
            None => None,
            Some((v, j2)) => if i < j2 <= s.len() {
                match spec_parse_items_rest(s, j2) {
                    None => None,
                    Some((vs, j3)) => Some((seq![v] + vs, j3)),
                }
            } else {
                None
            },
        }
    } else {
        None
    }
}

/// The whole payload: a JSON array of items, with nothing but whitespace
/// around it.  `None` is a decode failure, fatal for the call.
pub open spec fn spec_parse_payload(s: Seq<u8>) -> Option<Seq<SpecItem>> {
    let i = spec_skip_ws(s, 0);
    if i < s.len() && s[i] == LBRACKET {
        let j = spec_skip_ws(s, i + 1);
        if j < s.len() && s[j] == RBRACKET {
            if spec_skip_ws(s, j + 1) == s.len() {
                Some(Seq::empty())
            } else {
                None
            }
        } else {
            match spec_parse_item(s, j) {
                None => None,
                Some((v, j2)) => match spec_parse_items_rest(s, j2) {
                    None => None,
                    Some((vs, j3)) => if spec_skip_ws(s, j3) == s.len() {
                        Some(seq![v] + vs)
                    } else {
                        None
                    },
                },
            }
        }
    } else {
        None
    }
}

pub open spec fn pow10(n: nat) -> nat
    decreases n,
{
    if n == 0 {
        1
    } else {
        10 * pow10((n - 1) as nat)
    }
}

/// A digit run of length `j - i` stays under `pow10(j - i)`.
proof fn lemma_digits_val_upper(s: Seq<u8>, i: int, j: int)
    requires
        i <= j,
        forall|k: int| i <= k < j ==> is_digit(#[trigger] s[k]),
    ensures
        digits_val(s, i, j) < pow10((j - i) as nat),
    decreases j - i,
{
    if j <= i {
    } else {
        lemma_digits_val_upper(s, i, j - 1);
    }
}

/// A digit run's value never shrinks as the run extends.
proof fn lemma_digits_val_mono(s: Seq<u8>, i: int, j1: int, j2: int)
    requires
        i <= j1 <= j2,
    ensures
        digits_val(s, i, j1) <= digits_val(s, i, j2),
    decreases j2 - j1,
{
    if j1 < j2 {
        lemma_digits_val_mono(s, i, j1, j2 - 1);
    }
}

/// A digit run without a leading zero reaches at least `pow10(len - 1)`.
proof fn lemma_digits_val_lower(s: Seq<u8>, i: int, j: int)
    requires
        i < j,
        forall|k: int| i <= k < j ==> is_digit(#[trigger] s[k]),
        s[i] != 48,
    ensures
        digits_val(s, i, j) >= pow10((j - i - 1) as nat),
    decreases j - i,
{
    if j == i + 1 {
    } else {
        lemma_digits_val_lower(s, i, j - 1);
    }
}

/// Skip whitespace, returning the first index that holds none.
fn skip_ws(s: &[u8], i: usize) -> (j: usize)
    requires
        i <= s@.len(),
    ensures
        j == spec_skip_ws(s@, i as int),
        i <= j <= s@.len(),
{
    let mut cur = i;
    while cur < s.len() && (s[cur] == 32 || s[cur] == 9 || s[cur] == 10 || s[cur] == 13)
        invariant
            i <= cur <= s@.len(),
            spec_skip_ws(s@, i as int) == spec_skip_ws(s@, cur as int),
        decreases s@.len() - cur,
    {
        cur = cur + 1;
    }
    cur
}

/// Parse an integer at `i`.
fn parse_int(s: &[u8], i: usize) -> (r: Option<(i64, usize)>)
    requires
        i <= s@.len(),
    ensures
        spec_parse_int(s@, i as int) == match r {
            None => None::<(int, int)>,
            Some((v, j)) => Some((v as int, j as int)),
        },
        r matches Some((v, j)) ==> i < j <= s@.len(),
{
    let mut neg = false;
    let mut i1 = i;
    if i < s.len() && s[i] == MINUS {
        neg = true;
        i1 = i + 1;
    }
    // find the end of the digit run
    let mut j = i1;
    while j < s.len() && 48 <= s[j] && s[j] <= 57
        invariant
            i1 <= j <= s@.len(),
            digit_run_end(s@, i1 as int) == digit_run_end(s@, j as int),
            forall|k: int| i1 <= k < j ==> is_digit(#[trigger] s@[k]),
        decreases s@.len() - j,
    {
        j = j + 1;
    }
    assert(j == digit_run_end(s@, i1 as int));
    if j == i1 {
        return None;
    }
    if s[i1] == 48 && j > i1 + 1 {
        return None;
    }
    let len = j - i1;
    if len >= 20 {
        proof {
            lemma_digits_val_lower(s@, i1 as int, i1 + 20);
            lemma_digits_val_mono(s@, i1 as int, i1 + 20, j as int);
            reveal_with_fuel(pow10, 21);
            assert(pow10(19) == 10000000000000000000);
            assert(digits_val(s@, i1 as int, j as int) > i64::MAX);
        }
        return None;
    }
    // at most 19 digits: the value fits in a u64
    let mut acc: u64 = 0;
    let mut cur = i1;
    while cur < j
        invariant
            i1 <= cur <= j <= s@.len(),
            j - i1 <= 19,
            forall|k: int| i1 <= k < j ==> is_digit(#[trigger] s@[k]),
            acc == digits_val(s@, i1 as int, cur as int),
            acc < pow10((cur - i1) as nat),
        decreases j - cur,
    {
        proof {
            lemma_digits_val_upper(s@, i1 as int, cur as int);
            reveal_with_fuel(pow10, 21);
            assert(pow10((cur - i1) as nat) <= pow10(18));
            assert(pow10(18) == 1000000000000000000);
        }
        let d = s[cur] - 48;
        acc = acc * 10 + (d as u64);
        cur = cur + 1;
        proof {
            lemma_digits_val_upper(s@, i1 as int, cur as int);
        }
    }
    assert(acc == digits_val(s@, i1 as int, j as int));
    if neg {
        if acc > 9223372036854775808u64 {
            return None;
        }
        let v: i64 = if acc == 9223372036854775808u64 {
            i64::MIN
        } else {
            -(acc as i64)
        };
        Some((v, j))
    } else {
        if acc > i64::MAX as u64 {
            return None;
        }
        Some((acc as i64, j))
    }
}

/// Parse a string body at `i`, the opening quote already consumed.
fn parse_strbody(s: &[u8], i: usize) -> (r: Option<(Vec<u8>, usize)>)
    requires
        i <= s@.len(),
    ensures
        spec_parse_strbody(s@, i as int) == match r {
            None => None::<(Seq<u8>, int)>,
            Some((b, j)) => Some((b@, j as int)),
        },
        r matches Some((b, j)) ==> i < j <= s@.len(),
{
    let mut acc: Vec<u8> = Vec::new();
    let mut cur = i;
    loop
        invariant
            i <= cur <= s@.len(),
            spec_parse_strbody(s@, i as int) == match spec_parse_strbody(s@, cur as int) {
                None => None::<(Seq<u8>, int)>,
                Some((t, j)) => Some((acc@ + t, j)),
            },
        decreases s@.len() - cur,
    {
        if cur >= s.len() {
            return None;
        }
        let b = s[cur];
        if b == QUOTE {
            proof {
                assert(acc@ + Seq::<u8>::empty() =~= acc@);
            }
            return Some((acc, cur + 1));
        } else if b == BACKSLASH {
            if cur + 1 < s.len() && (s[cur + 1] == QUOTE || s[cur + 1] == BACKSLASH) {
                let ghost pre = acc@;
                let ghost e: u8 = s@[cur + 1];
                acc.push(s[cur + 1]);
                proof {
                    assert(forall|t: Seq<u8>| (pre + seq![e]) + t =~= pre + (seq![e] + t));
                }
                cur = cur + 2;
            } else {
                return None;
            }
        } else {
            let ghost pre = acc@;
            let ghost e: u8 = s@[cur as int];
            acc.push(b);
            proof {
                assert(forall|t: Seq<u8>| (pre + seq![e]) + t =~= pre + (seq![e] + t));
            }
            cur = cur + 1;
        }
    }
}

/// Parse a scalar at `i`.
fn parse_scalar(s: &[u8], i: usize) -> (r: Option<(Scalar, usize)>)
    requires
        i <= s@.len(),
    ensures
        spec_parse_scalar(s@, i as int) == match r {
            None => None::<(SpecScalar, int)>,
            Some((v, j)) => Some((v@, j as int)),
        },
        r matches Some((v, j)) ==> i < j <= s@.len(),
{
    if i < s.len() && s[i] == QUOTE {
        match parse_strbody(s, i + 1) {
            None => None,
            Some((b, j)) => Some((Scalar::Str(b), j)),
        }
    } else {
        match parse_int(s, i) {
            None => None,
            Some((v, j)) => Some((Scalar::Int(v), j)),
        }
    }
}

/// Parse one `"name": scalar` pair at `i`.
fn parse_field(s: &[u8], i: usize) -> (r: Option<(FieldVal, usize)>)
    requires
        i <= s@.len(),
    ensures
        spec_parse_field(s@, i as int) == match r {
            None => None::<(SpecField, int)>,
            Some((f, j)) => Some((f@, j as int)),
        },
        r matches Some((f, j)) ==> i < j <= s@.len(),
{
    if i < s.len() && s[i] == QUOTE {
        match parse_strbody(s, i + 1) {
            None => None,
            Some((nm, j)) => {
                let j1 = skip_ws(s, j);
                if j1 < s.len() && s[j1] == COLON {
                    let j2 = skip_ws(s, j1 + 1);
                    match parse_scalar(s, j2) {
                        None => None,
                        Some((v, j3)) => Some((FieldVal { name: nm, value: v }, j3)),
                    }
                } else {
                    None
                }
            },
        }
    } else {
        None
    }
}

/// Parse a record at `i`.
fn parse_record(s: &[u8], i: usize) -> (r: Option<(RecordVal, usize)>)
    requires
        i <= s@.len(),
    ensures
        spec_parse_record(s@, i as int) == match r {
            None => None::<(SpecRecord, int)>,
            Some((rec, j)) => Some((rec@, j as int)),
        },
        r matches Some((rec, j)) ==> i < j <= s@.len(),
{
    if !(i < s.len() && s[i] == LBRACE) {
        return None;
    }
    let j = skip_ws(s, i + 1);
    if j < s.len() && s[j] == RBRACE {
        let fields: Vec<FieldVal> = Vec::new();
        proof {
            assert(fields@.map_values(|f: FieldVal| f@) =~= Seq::<SpecField>::empty());
        }
        return Some((RecordVal { fields }, j + 1));
    }
    let (first, j2) = match parse_field(s, j) {
        None => {
            return None;
        },
        Some(p) => p,
    };
    let mut fields: Vec<FieldVal> = Vec::new();
    fields.push(first);
    proof {
        assert(fields@.map_values(|f: FieldVal| f@) =~= seq![first@]);
    }
    let mut cur = j2;
    loop
        invariant
            i < cur <= s@.len(),
            spec_parse_record(s@, i as int) == match spec_parse_fields_rest(s@, cur as int) {
                None => None::<(SpecRecord, int)>,
                Some((fs, j3)) => Some(
                    (SpecRecord { fields: fields@.map_values(|f: FieldVal| f@) + fs }, j3),
                ),
            },
        decreases s@.len() - cur,
    {
        let jr = skip_ws(s, cur);
        if jr < s.len() && s[jr] == RBRACE {
            proof {
                let sfs = fields@.map_values(|f: FieldVal| f@);
                assert(sfs + Seq::<SpecField>::empty() =~= sfs);
            }
            return Some((RecordVal { fields }, jr + 1));
        } else if jr < s.len() && s[jr] == COMMA {
            let j1 = skip_ws(s, jr + 1);
            match parse_field(s, j1) {
                None => {
                    return None;
                },
                Some((f, jn)) => {
                    let ghost pre = fields@.map_values(|ff: FieldVal| ff@);
                    fields.push(f);
                    proof {
                        assert(fields@.map_values(|ff: FieldVal| ff@) =~= pre.push(f@));
                        assert(forall|fs: Seq<SpecField>| (pre.push(f@)) + fs =~= pre + (seq![f@]
                            + fs));
                    }
                    cur = jn;
                },
            }
        } else {
            return None;
        }
    }
}

/// Parse a list at `i`: scalars, records, or empty.
fn parse_list(s: &[u8], i: usize) -> (r: Option<(Item, usize)>)
    requires
        i <= s@.len(),
    ensures
        spec_parse_list(s@, i as int) == match r {
            None => None::<(SpecItem, int)>,
            Some((v, j)) => Some((v@, j as int)),
        },
        r matches Some((v, j)) ==> i < j <= s@.len(),
{
    if !(i < s.len() && s[i] == LBRACKET) {
        return None;
    }
    let j = skip_ws(s, i + 1);
    if j < s.len() && s[j] == RBRACKET {
        let xs: Vec<Scalar> = Vec::new();
        proof {
            assert(xs@.map_values(|x: Scalar| x@) =~= Seq::<SpecScalar>::empty());
        }
        return Some((Item::ScList(xs), j + 1));
    }
    if j < s.len() && s[j] == LBRACE {
        // a list of records
        let (first, j2) = match parse_record(s, j) {
            None => {
                return None;
            },
            Some(p) => p,
        };
        let mut rs: Vec<RecordVal> = Vec::new();
        rs.push(first);
        proof {
            assert(rs@.map_values(|r0: RecordVal| r0@) =~= seq![first@]);
        }
        let mut cur = j2;
        loop
            invariant
                i < cur <= s@.len(),
                spec_parse_list(s@, i as int) == match spec_parse_records_rest(s@, cur as int) {
                    None => None::<(SpecItem, int)>,
                    Some((tail, j3)) => Some(
                        (SpecItem::RecList(rs@.map_values(|r0: RecordVal| r0@) + tail), j3),
                    ),
                },
            decreases s@.len() - cur,
        {
            let jr = skip_ws(s, cur);
            if jr < s.len() && s[jr] == RBRACKET {
                proof {
                    let srs = rs@.map_values(|r0: RecordVal| r0@);
                    assert(srs + Seq::<SpecRecord>::empty() =~= srs);
                }
                return Some((Item::RecList(rs), jr + 1));
            } else if jr < s.len() && s[jr] == COMMA {
                let j1 = skip_ws(s, jr + 1);
                match parse_record(s, j1) {
                    None => {
                        return None;
                    },
                    Some((rc, jn)) => {
                        let ghost pre = rs@.map_values(|r0: RecordVal| r0@);
                        rs.push(rc);
                        proof {
                            assert(rs@.map_values(|r0: RecordVal| r0@) =~= pre.push(rc@));
                            assert(forall|tail: Seq<SpecRecord>| (pre.push(rc@)) + tail =~= pre + (
                            seq![rc@] + tail));
                        }
                        cur = jn;
                    },
                }
            } else {
                return None;
            }
        }
    }
    // a list of scalars
    let (first, j2) = match parse_scalar(s, j) {
        None => {
            return None;
        },
        Some(p) => p,
    };
    let mut xs: Vec<Scalar> = Vec::new();
    xs.push(first);
    proof {
        assert(xs@.map_values(|x: Scalar| x@) =~= seq![first@]);
    }
    let mut cur = j2;
    loop
        invariant
            i < cur <= s@.len(),
            spec_parse_list(s@, i as int) == match spec_parse_scalars_rest(s@, cur as int) {
                None => None::<(SpecItem, int)>,
                Some((tail, j3)) => Some(
                    (SpecItem::ScList(xs@.map_values(|x: Scalar| x@) + tail), j3),
                ),
            },
        decreases s@.len() - cur,
    {
        let jr = skip_ws(s, cur);
        if jr < s.len() && s[jr] == RBRACKET {
            proof {
                let sxs = xs@.map_values(|x: Scalar| x@);
                assert(sxs + Seq::<SpecScalar>::empty() =~= sxs);
            }
            return Some((Item::ScList(xs), jr + 1));
        } else if jr < s.len() && s[jr] == COMMA {
            let j1 = skip_ws(s, jr + 1);
            match parse_scalar(s, j1) {
                None => {
                    return None;
                },
                Some((x, jn)) => {
                    let ghost pre = xs@.map_values(|x0: Scalar| x0@);
                    xs.push(x);
                    proof {
                        assert(xs@.map_values(|x0: Scalar| x0@) =~= pre.push(x@));
                        assert(forall|tail: Seq<SpecScalar>| (pre.push(x@)) + tail =~= pre + (
                        seq![x@] + tail));
                    }
                    cur = jn;
                },
            }
        } else {
            return None;
        }
    }
}

/// Parse one payload element at `i`.
fn parse_item(s: &[u8], i: usize) -> (r: Option<(Item, usize)>)
    requires
        i <= s@.len(),
    ensures
        spec_parse_item(s@, i as int) == match r {
            None => None::<(SpecItem, int)>,
            Some((v, j)) => Some((v@, j as int)),
        },
        r matches Some((v, j)) ==> i < j <= s@.len(),
{
    if i < s.len() && s[i] == LBRACKET {
        parse_list(s, i)
    } else if i < s.len() && s[i] == LBRACE {
        match parse_record(s, i) {
            None => None,
            Some((rc, j)) => Some((Item::Rec(rc), j)),
        }
    } else {
        match parse_scalar(s, i) {
            None => None,
            Some((x, j)) => Some((Item::Sc(x), j)),
        }
    }
}

/// Decode a payload: the whole input must be one JSON array of items.
/// `None` is a decode failure, fatal for the call.
pub fn decode_payload(s: &[u8]) -> (r: Option<Vec<Item>>)
    ensures
        spec_parse_payload(s@) == match r {
            None => None::<Seq<SpecItem>>,
            Some(items) => Some(items@.map_values(|v: Item| v@)),
        },
{
    let i = skip_ws(s, 0);
    if !(i < s.len() && s[i] == LBRACKET) {
        return None;
    }
    let j = skip_ws(s, i + 1);
    if j < s.len() && s[j] == RBRACKET {
        let tail = skip_ws(s, j + 1);
        if tail == s.len() {
            let items: Vec<Item> = Vec::new();
            proof {
                assert(items@.map_values(|v: Item| v@) =~= Seq::<SpecItem>::empty());
            }
            return Some(items);
        } else {
            return None;
        }
    }
    let (first, j2) = match parse_item(s, j) {
        None => {
            return None;
        },
        Some(p) => p,
    };
    let mut items: Vec<Item> = Vec::new();
    items.push(first);
    proof {
        assert(items@.map_values(|v: Item| v@) =~= seq![first@]);
    }
    let mut cur = j2;
    loop
        invariant
            0 < cur <= s@.len(),
            spec_parse_payload(s@) == match spec_parse_items_rest(s@, cur as int) {
                None => None::<Seq<SpecItem>>,
                Some((tail, j3)) => if spec_skip_ws(s@, j3) == s@.len() {
                    Some(items@.map_values(|v: Item| v@) + tail)
                } else {
                    None::<Seq<SpecItem>>
                },
            },
        decreases s@.len() - cur,
    {
        let jr = skip_ws(s, cur);
        if jr < s.len() && s[jr] == RBRACKET {
            let tail = skip_ws(s, jr + 1);
            if tail == s.len() {
                proof {
                    let sv = items@.map_values(|v: Item| v@);
                    assert(sv + Seq::<SpecItem>::empty() =~= sv);
                }
                return Some(items);
            } else {
                return None;
            }
        } else if jr < s.len() && s[jr] == COMMA {
            let j1 = skip_ws(s, jr + 1);
            match parse_item(s, j1) {
                None => {
                    return None;
                },
                Some((v, jn)) => {
                    let ghost pre = items@.map_values(|v0: Item| v0@);
                    items.push(v);
                    proof {
                        assert(items@.map_values(|v0: Item| v0@) =~= pre.push(v@));
                        assert(forall|tail: Seq<SpecItem>| (pre.push(v@)) + tail =~= pre + (seq![v@]
                            + tail));
                    }
                    cur = jn;
                },
            }
        } else {
            return None;
        }
    }
}

/// Digits of a `u64`, appended to `out`.
fn ser_u64(n: u64, out: &mut Vec<u8>)
    ensures
        final(out)@ == old(out)@ + spec_ser_nat(n as nat),
    decreases n,
{
    if n < 10 {
        out.push((48 + n) as u8);
    } else {
        ser_u64(n / 10, out);
        out.push((48 + n % 10) as u8);
    }
}

/// Canonical decimal form of `i`, appended to `out`.
fn ser_i64(i: i64, out: &mut Vec<u8>)
    ensures
        final(out)@ == old(out)@ + spec_ser_int(i as int),
{
    if i < 0 {
        out.push(MINUS);
        let mag: u64 = if i == i64::MIN {
            9223372036854775808u64
        } else {
            (-i) as u64
        };
        assert(mag as nat == (-(i as int)) as nat);
        ser_u64(mag, out);
        assert(out@ == old(out)@ + spec_ser_int(i as int));
    } else {
        ser_u64(i as u64, out);
    }
}

/// `spec_escape` distributes over concatenation.
proof fn lemma_escape_app(a: Seq<u8>, b: Seq<u8>)
    ensures
        spec_escape(a + b) == spec_escape(a) + spec_escape(b),
    decreases a.len(),
{
    if a.len() == 0 {
        assert(a + b =~= b);
        assert(spec_escape(a) + spec_escape(b) =~= spec_escape(b));
    } else {
        lemma_escape_app(a.drop_first(), b);
        assert((a + b).drop_first() =~= a.drop_first() + b);
        assert(spec_escape(a + b) =~= spec_escape(a) + spec_escape(b));
    }
}

/// String-body bytes of `s` with the two escapes, appended to `out`.
fn ser_escaped(s: &[u8], out: &mut Vec<u8>)
    ensures
        final(out)@ == old(out)@ + spec_escape(s@),
{
    let n = s.len();
    let mut i: usize = 0;
    while i < n
        invariant
            i <= n,
            n == s@.len(),
            out@ == old(out)@ + spec_escape(s@.take(i as int)),
        decreases n - i,
    {
        let b = s[i];
        if b == QUOTE || b == BACKSLASH {
            out.push(BACKSLASH);
            out.push(b);
        } else {
            out.push(b);
        }
        proof {
            let pre = s@.take(i as int);
            let one = seq![s@[i as int]];
            assert(one.drop_first() =~= Seq::<u8>::empty());
            assert(spec_escape(Seq::<u8>::empty()) =~= Seq::<u8>::empty());
            assert(spec_escape(one) =~= (if s@[i as int] == QUOTE || s@[i as int] == BACKSLASH {
                seq![BACKSLASH, s@[i as int]]
            } else {
                seq![s@[i as int]]
            }));
            lemma_escape_app(pre, one);
            assert(s@.take(i + 1) =~= pre + one);
            assert(out@ =~= old(out)@ + spec_escape(s@.take(i + 1)));
        }
        i = i + 1;
    }
    assert(s@.take(n as int) =~= s@);
}

/// One scalar in wire form, appended to `out`.
fn ser_scalar(v: &Scalar, out: &mut Vec<u8>)
    ensures
        final(out)@ == old(out)@ + spec_ser_scalar(v@),
{
    match v {
        Scalar::Int(i) => ser_i64(*i, out),
        Scalar::Str(s) => {
            out.push(QUOTE);
            ser_escaped(s.as_slice(), out);
            out.push(QUOTE);
            assert(out@ =~= old(out)@ + spec_ser_scalar(v@));
        },
    }
}

/// One record field in wire form, appended to `out`.
fn ser_field(f: &FieldVal, out: &mut Vec<u8>)
    ensures
        final(out)@ == old(out)@ + spec_ser_field(f@),
{
    out.push(QUOTE);
    ser_escaped(f.name.as_slice(), out);
    out.push(QUOTE);
    out.push(COLON);
    ser_scalar(&f.value, out);
    assert(out@ =~= old(out)@ + spec_ser_field(f@));
}

/// Appending one element to a comma-joined field list.
proof fn lemma_ser_fields_snoc(fs: Seq<SpecField>, f: SpecField)
    ensures
        spec_ser_fields(fs.push(f)) == if fs.len() == 0 {
            spec_ser_field(f)
        } else {
            spec_ser_fields(fs) + seq![COMMA] + spec_ser_field(f)
        },
    decreases fs.len(),
{
    if fs.len() == 0 {
        assert(fs.push(f)[0] == f);
        assert(fs.push(f).len() == 1);
    } else {
        lemma_ser_fields_snoc(fs.drop_first(), f);
        assert(fs.push(f).drop_first() =~= fs.drop_first().push(f));
        assert(fs.push(f)[0] == fs[0]);
        if fs.len() == 1 {
            assert(spec_ser_fields(fs) == spec_ser_field(fs[0]));
            assert(spec_ser_fields(fs.push(f)) =~= spec_ser_fields(fs) + seq![COMMA]
                + spec_ser_field(f));
        } else {
            assert(spec_ser_fields(fs.push(f)) =~= spec_ser_fields(fs) + seq![COMMA]
                + spec_ser_field(f));
        }
    }
}

/// A record in wire form, appended to `out`.
fn ser_record(r: &RecordVal, out: &mut Vec<u8>)
    ensures
        final(out)@ == old(out)@ + spec_ser_record(r@),
{
    out.push(LBRACE);
    let n = r.fields.len();
    let mut i: usize = 0;
    while i < n
        invariant
            i <= n,
            n == r.fields@.len(),
            out@ == old(out)@ + seq![LBRACE] + spec_ser_fields(
                r@.fields.take(i as int),
            ),
        decreases n - i,
    {
        if i > 0 {
            out.push(COMMA);
        }
        ser_field(&r.fields[i], out);
        proof {
            lemma_ser_fields_snoc(r@.fields.take(i as int), r@.fields[i as int]);
            assert(r@.fields.take(i + 1) =~= r@.fields.take(i as int).push(r@.fields[i as int]));
            assert(r@.fields[i as int] == r.fields@[i as int]@);
            assert(out@ =~= old(out)@ + seq![LBRACE] + spec_ser_fields(r@.fields.take(i + 1)));
        }
        i = i + 1;
    }
    out.push(RBRACE);
    proof {
        assert(r@.fields.take(n as int) =~= r@.fields);
        assert(out@ =~= old(out)@ + spec_ser_record(r@));
    }
}

/// Appending one element to a comma-joined scalar list.
proof fn lemma_ser_scalars_snoc(xs: Seq<SpecScalar>, x: SpecScalar)
    ensures
        spec_ser_scalars(xs.push(x)) == if xs.len() == 0 {
            spec_ser_scalar(x)
        } else {
            spec_ser_scalars(xs) + seq![COMMA] + spec_ser_scalar(x)
        },
    decreases xs.len(),
{
    if xs.len() == 0 {
        assert(xs.push(x)[0] == x);
    } else {
        lemma_ser_scalars_snoc(xs.drop_first(), x);
        assert(xs.push(x).drop_first() =~= xs.drop_first().push(x));
        assert(xs.push(x)[0] == xs[0]);
        assert(spec_ser_scalars(xs.push(x)) =~= spec_ser_scalars(xs) + seq![COMMA]
            + spec_ser_scalar(x));
    }
}

/// Appending one element to a comma-joined record list.
proof fn lemma_ser_records_snoc(rs: Seq<SpecRecord>, r: SpecRecord)
    ensures
        spec_ser_records(rs.push(r)) == if rs.len() == 0 {
            spec_ser_record(r)
        } else {
            spec_ser_records(rs) + seq![COMMA] + spec_ser_record(r)
        },
    decreases rs.len(),
{
    if rs.len() == 0 {
        assert(rs.push(r)[0] == r);
    } else {
        lemma_ser_records_snoc(rs.drop_first(), r);
        assert(rs.push(r).drop_first() =~= rs.drop_first().push(r));
        assert(rs.push(r)[0] == rs[0]);
        assert(spec_ser_records(rs.push(r)) =~= spec_ser_records(rs) + seq![COMMA]
            + spec_ser_record(r));
    }
}

/// Appending one element to the comma-joined item list.
proof fn lemma_ser_items_snoc(items: Seq<SpecItem>, v: SpecItem)
    ensures
        spec_ser_items(items.push(v)) == if items.len() == 0 {
            spec_ser_item(v)
        } else {
            spec_ser_items(items) + seq![COMMA] + spec_ser_item(v)
        },
    decreases items.len(),
{
    if items.len() == 0 {
        assert(items.push(v)[0] == v);
    } else {
        lemma_ser_items_snoc(items.drop_first(), v);
        assert(items.push(v).drop_first() =~= items.drop_first().push(v));
        assert(items.push(v)[0] == items[0]);
        assert(spec_ser_items(items.push(v)) =~= spec_ser_items(items) + seq![COMMA]
            + spec_ser_item(v));
    }
}

/// A list of scalars in wire form, appended to `out`.
fn ser_sclist(xs: &Vec<Scalar>, out: &mut Vec<u8>)
    ensures
        final(out)@ == old(out)@ + seq![LBRACKET] + spec_ser_scalars(
            xs@.map_values(|x: Scalar| x@),
        ) + seq![RBRACKET],
{
    let ghost sxs = xs@.map_values(|x: Scalar| x@);
    out.push(LBRACKET);
    let n = xs.len();
    let mut i: usize = 0;
    while i < n
        invariant
            i <= n,
            n == xs@.len(),
            sxs == xs@.map_values(|x: Scalar| x@),
            out@ == old(out)@ + seq![LBRACKET] + spec_ser_scalars(sxs.take(i as int)),
        decreases n - i,
    {
        if i > 0 {
            out.push(COMMA);
        }
        ser_scalar(&xs[i], out);
        proof {
            lemma_ser_scalars_snoc(sxs.take(i as int), sxs[i as int]);
            assert(sxs.take(i + 1) =~= sxs.take(i as int).push(sxs[i as int]));
            assert(out@ =~= old(out)@ + seq![LBRACKET] + spec_ser_scalars(sxs.take(i + 1)));
        }
        i = i + 1;
    }
    out.push(RBRACKET);
    proof {
        assert(sxs.take(n as int) =~= sxs);
        assert(out@ =~= old(out)@ + seq![LBRACKET] + spec_ser_scalars(sxs) + seq![RBRACKET]);
    }
}

/// A list of records in wire form, appended to `out`.
fn ser_reclist(rs: &Vec<RecordVal>, out: &mut Vec<u8>)
    ensures
        final(out)@ == old(out)@ + seq![LBRACKET] + spec_ser_records(
            rs@.map_values(|r: RecordVal| r@),
        ) + seq![RBRACKET],
{
    let ghost srs = rs@.map_values(|r: RecordVal| r@);
    out.push(LBRACKET);
    let n = rs.len();
    let mut i: usize = 0;
    while i < n
        invariant
            i <= n,
            n == rs@.len(),
            srs == rs@.map_values(|r: RecordVal| r@),
            out@ == old(out)@ + seq![LBRACKET] + spec_ser_records(srs.take(i as int)),
        decreases n - i,
    {
        if i > 0 {
            out.push(COMMA);
        }
        ser_record(&rs[i], out);
        proof {
            lemma_ser_records_snoc(srs.take(i as int), srs[i as int]);
            assert(srs.take(i + 1) =~= srs.take(i as int).push(srs[i as int]));
            assert(out@ =~= old(out)@ + seq![LBRACKET] + spec_ser_records(srs.take(i + 1)));
        }
        i = i + 1;
    }
    out.push(RBRACKET);
    proof {
        assert(srs.take(n as int) =~= srs);
        assert(out@ =~= old(out)@ + seq![LBRACKET] + spec_ser_records(srs) + seq![RBRACKET]);
    }
}

/// One item in wire form, appended to `out`.
fn ser_item(v: &Item, out: &mut Vec<u8>)
    ensures
        final(out)@ == old(out)@ + spec_ser_item(v@),
{
    match v {
        Item::Sc(x) => ser_scalar(x, out),
        Item::Rec(r) => ser_record(r, out),
        Item::ScList(xs) => ser_sclist(xs, out),
        Item::RecList(rs) => ser_reclist(rs, out),
    }
}

/// One item in wire form, in a fresh buffer.
pub fn encode_item(v: &Item) -> (r: Vec<u8>)
    ensures
        r@ == spec_ser_item(v@),
{
    let mut out: Vec<u8> = Vec::new();
    ser_item(v, &mut out);
    proof {
        assert(out@ =~= spec_ser_item(v@));
    }
    out
}

/// Encode a payload — the arguments of a call, or the wrapped result — as a
/// JSON array in canonical form.
pub fn encode_payload(items: &Vec<Item>) -> (r: Vec<u8>)
    ensures
        r@ == spec_ser_payload(items@.map_values(|v: Item| v@)),
{
    let ghost sv = items@.map_values(|v: Item| v@);
    let mut out: Vec<u8> = Vec::new();
    out.push(LBRACKET);
    let n = items.len();
    let mut i: usize = 0;
    while i < n
        invariant
            i <= n,
            n == items@.len(),
            sv == items@.map_values(|v: Item| v@),
            out@ == seq![LBRACKET] + spec_ser_items(sv.take(i as int)),
        decreases n - i,
    {
        if i > 0 {
            out.push(COMMA);
        }
        ser_item(&items[i], &mut out);
        proof {
            lemma_ser_items_snoc(sv.take(i as int), sv[i as int]);
            assert(sv.take(i + 1) =~= sv.take(i as int).push(sv[i as int]));
            assert(out@ =~= seq![LBRACKET] + spec_ser_items(sv.take(i + 1)));
        }
        i = i + 1;
    }
    out.push(RBRACKET);
    proof {
        assert(sv.take(n as int) =~= sv);
        assert(out@ =~= spec_ser_payload(sv));
    }
    out
}

} // verus!
