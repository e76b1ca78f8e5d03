//! The guest-resident half of the dispatch protocol: the statically known
//! table of exported functions, and `handle_json`, which matches a name,
//! decodes the payload against the matched function's declared parameter
//! shapes, runs it, and encodes the result as a singleton array.  An unknown
//! name or an untypable payload is a trap — fatal for the call, never a
//! best-effort result.

use vstd::prelude::*;

use crate::json::decode_payload;
use crate::json::encode_payload;
use crate::json::spec_parse_payload;
use crate::json::spec_ser_payload;
use crate::value::item_matches;
use crate::value::FieldVal;
use crate::value::Item;
use crate::value::RecordVal;
use crate::value::Scalar;
use crate::value::SpecField;
use crate::value::SpecRecord;
use crate::value::ScalarShape;
use crate::value::SpecFieldShape;
use crate::value::SpecItem;
use crate::value::SpecScalar;
use crate::value::SpecShape;

verus! {

/// A guest-raised fatal abort.  It ends the current call and nothing else;
/// it is never folded into a successful result.
#[derive(PartialEq, Eq, Structural, Clone, Copy, Debug)]
pub enum TrapError {
    /// The dispatch name matches no exported function.
    UnknownName,
    /// The payload is not a well-formed argument array for the matched
    /// function: a parse failure, a wrong arity, or a type mismatch.
    DecodeFailure,
    /// The matched function aborted while running.
    GuestPanic,
}

/// One step of the original's accumulation: `res * base` on 32-bit words,
/// wrapping.
pub open spec fn spec_pow_wrap(base: i32, e: int) -> i32
    decreases e,
{
    if e <= 0 {
        1
    } else {
        vstd::wrapping::i32_specs::wrapping_mul(spec_pow_wrap(base, e - 1), base)
    }
}

/// `base` multiplied into 1, `exp` times, on wrapping 32-bit arithmetic.
/// A non-positive exponent leaves the accumulator untouched.
pub fn power_of(base: i32, exp: i32) -> (r: i32)
    ensures
        r == spec_pow_wrap(base, exp as int),
{
    let mut res: i32 = 1;
    let mut i: i32 = 0;
    while i < exp
        invariant
            0 <= i,
            i <= exp || i == 0,
            res == spec_pow_wrap(base, i as int),
        decreases exp - i,
    {
        res = res.wrapping_mul(base);
        i = i + 1;
    }
    res
}

/// The dispatch name of the power export, as UTF-8 bytes.
pub open spec fn spec_power_name() -> Seq<u8> {
    seq![112u8, 111u8, 119u8, 101u8, 114u8, 95u8, 111u8, 102u8]
}

/// The dispatch name of the split export, as UTF-8 bytes.
pub open spec fn spec_split_name() -> Seq<u8> {
    seq![115u8, 112u8, 108u8, 105u8, 116u8, 95u8, 115u8, 116u8, 114u8]
}

fn power_name() -> (v: Vec<u8>)
    ensures
        v@ == spec_power_name(),
{
    let mut v: Vec<u8> = Vec::new();
    v.push(112);
    v.push(111);
    v.push(119);
    v.push(101);
    v.push(114);
    v.push(95);
    v.push(111);
    v.push(102);
    proof {
        assert(v@ =~= spec_power_name());
    }
    v
}

fn split_name() -> (v: Vec<u8>)
    ensures
        v@ == spec_split_name(),
{
    let mut v: Vec<u8> = Vec::new();
    v.push(115);
    v.push(112);
    v.push(108);
    v.push(105);
    v.push(116);
    v.push(95);
    v.push(115);
    v.push(116);
    v.push(114);
    proof {
        assert(v@ =~= spec_split_name());
    }
    v
}

/// Byte-string equality.
pub fn bytes_eq(a: &[u8], b: &[u8]) -> (r: bool)
    ensures
        r == (a@ == b@),
{
    if a.len() != b.len() {
        proof {
            assert(a@ != b@);
        }
        return false;
    }
    let n = a.len();
    let mut i: usize = 0;
    while i < n
        invariant
            i <= n,
            n == a@.len() == b@.len(),
            forall|k: int| 0 <= k < i ==> a@[k] == b@[k],
        decreases n - i,
    {
        if a[i] != b[i] {
            return false;
        }
        i = i + 1;
    }
    proof {
        assert(a@ =~= b@);
    }
    true
}

/// One piece of a split phrase: the piece's bytes and its byte offset in the
/// original phrase.
#[derive(PartialEq, Eq, Debug)]
pub struct Subphrase {
    pub str: Vec<u8>,
    pub idx: i32,
}

/// Mathematical mirror of `Subphrase`.
#[verifier::ext_equal]
pub struct SpecSubphrase {
    pub str: Seq<u8>,
    pub idx: int,
}

impl View for Subphrase {
    type V = SpecSubphrase;

    open spec fn view(&self) -> SpecSubphrase {
        SpecSubphrase { str: self.str@, idx: self.idx as int }
    }
}

/// The delimiter occurs at position `i` of the phrase.
pub open spec fn is_match(p: Seq<u8>, d: Seq<u8>, i: int) -> bool {
    &&& 0 <= i
    &&& i + d.len() <= p.len()
    &&& p.subrange(i, i + d.len()) == d
}

/// A UTF-8 continuation byte.
pub open spec fn is_cont(b: u8) -> bool {
    128 <= b && b < 192
}

/// End of the continuation-byte run that starts at `j`: the first index at or
/// after `j` that begins a new character (or the end of the phrase).
pub open spec fn cont_run_end(p: Seq<u8>, j: int) -> int
    decreases p.len() - j,
{
    if 0 <= j < p.len() && is_cont(p[j]) {
        cont_run_end(p, j + 1)
    } else {
        j
    }
}

/// Splitting on the empty delimiter, from position `i`: one piece per
/// character, and a final empty piece — the behaviour of splitting a string
/// on an empty pattern, taken to bytes.
pub open spec fn spec_split_empty(p: Seq<u8>, i: int) -> Seq<SpecSubphrase>
    decreases p.len() - i,
{
    if i >= p.len() {
        seq![SpecSubphrase { str: Seq::empty(), idx: p.len() as int }]
    } else {
        let j = cont_run_end(p, i + 1);
        if i < j <= p.len() {
            seq![SpecSubphrase { str: p.subrange(i, j), idx: i }] + spec_split_empty(p, j)
        } else {
            Seq::empty()
        }
    }
}

/// Splitting on a nonempty delimiter: scan left to right; at each match emit
/// the piece gathered since `start` and resume after the delimiter; past the
/// last possible match, the remainder is the final piece.
pub open spec fn spec_split_scan(p: Seq<u8>, d: Seq<u8>, start: int, i: int) -> Seq<SpecSubphrase>
    decreases p.len() - i,
{
    if d.len() == 0 {
        Seq::empty()
    } else if i + d.len() > p.len() {
        seq![SpecSubphrase { str: p.subrange(start, p.len() as int), idx: start }]
    } else if is_match(p, d, i) {
        seq![SpecSubphrase { str: p.subrange(start, i), idx: start }] + spec_split_scan(
            p,
            d,
            i + d.len(),
            i + d.len(),
        )
    } else {
        spec_split_scan(p, d, start, i + 1)
    }
}

/// The pieces of `p` split on `d`, with byte offsets.
pub open spec fn spec_split(p: Seq<u8>, d: Seq<u8>) -> Seq<SpecSubphrase> {
    if d.len() == 0 {
        seq![SpecSubphrase { str: Seq::empty(), idx: 0 }] + spec_split_empty(p, 0)
    } else {
        spec_split_scan(p, d, 0, 0)
    }
}

/// The delimiter occurs at position `i`?
fn match_at(p: &[u8], d: &[u8], i: usize) -> (r: bool)
    requires
        i + d@.len() <= p@.len(),
    ensures
        r == is_match(p@, d@, i as int),
{
    let n = d.len();
    let plen = p.len();
    let mut k: usize = 0;
    while k < n
        invariant
            k <= n,
            n == d@.len(),
            plen == p@.len(),
            i + n <= plen,
            forall|t: int| 0 <= t < k ==> p@[i + t] == d@[t],
        decreases n - k,
    {
        if p[i + k] != d[k] {
            proof {
                assert(p@.subrange(i as int, i + d@.len())[k as int] == p@[i + k]);
            }
            return false;
        }
        k = k + 1;
    }
    proof {
        assert forall|t: int| 0 <= t < n implies p@.subrange(i as int, i + d@.len())[t] == d@[t] by {
            assert(p@.subrange(i as int, i + d@.len())[t] == p@[i + t]);
        }
        assert(p@.subrange(i as int, i + d@.len()) =~= d@);
    }
    true
}

/// Split `phrase` on `delim`, keeping each piece's byte offset, as the
/// original phrase scanner does: non-overlapping leftmost matches; on the
/// empty delimiter, one piece per character framed by empty pieces.
pub fn split_str(phrase: &[u8], delim: &[u8]) -> (r: Vec<Subphrase>)
    requires
        phrase@.len() + delim@.len() <= i32::MAX,
    ensures
        r@.map_values(|sp: Subphrase| sp@) == spec_split(phrase@, delim@),
{
    let mut out: Vec<Subphrase> = Vec::new();
    if delim.len() == 0 {
        out.push(Subphrase { str: Vec::new(), idx: 0 });
        proof {
            assert(out@.map_values(|sp: Subphrase| sp@) =~= seq![
                SpecSubphrase { str: Seq::empty(), idx: 0 },
            ]);
        }
        let mut i: usize = 0;
        while i < phrase.len()
            invariant
                0 <= i <= phrase@.len(),
                phrase@.len() <= i32::MAX,
                out@.map_values(|sp: Subphrase| sp@) + spec_split_empty(phrase@, i as int)
                    == spec_split(phrase@, delim@),
                delim@.len() == 0,
            decreases phrase@.len() - i,
        {
            // gather one character: its lead byte and the continuation run
            let mut j: usize = i + 1;
            while j < phrase.len() && 128 <= phrase[j] && phrase[j] < 192
                invariant
                    i + 1 <= j <= phrase@.len(),
                    cont_run_end(phrase@, i + 1) == cont_run_end(phrase@, j as int),
                decreases phrase@.len() - j,
            {
                j = j + 1;
            }
            assert(j == cont_run_end(phrase@, i + 1));
            let mut piece: Vec<u8> = Vec::new();
            let mut k: usize = i;
            while k < j
                invariant
                    i <= k <= j <= phrase@.len(),
                    piece@ == phrase@.subrange(i as int, k as int),
                decreases j - k,
            {
                piece.push(phrase[k]);
                proof {
                    assert(phrase@.subrange(i as int, k + 1) =~= phrase@.subrange(
                        i as int,
                        k as int,
                    ).push(phrase@[k as int]));
                }
                k = k + 1;
            }
            let ghost pre = out@.map_values(|sp: Subphrase| sp@);
            let sp = Subphrase { str: piece, idx: i as i32 };
            out.push(sp);
            proof {
                assert(out@.map_values(|sp0: Subphrase| sp0@) =~= pre.push(sp@));
                assert(forall|t: Seq<SpecSubphrase>| pre.push(sp@) + t =~= pre + (seq![sp@] + t));
            }
            i = j;
        }
        proof {
            assert(spec_split_empty(phrase@, i as int) == seq![
                SpecSubphrase { str: Seq::<u8>::empty(), idx: phrase@.len() as int },
            ]);
        }
        let tail = Subphrase { str: Vec::new(), idx: phrase.len() as i32 };
        let ghost pre = out@.map_values(|sp: Subphrase| sp@);
        out.push(tail);
        proof {
            assert(out@.map_values(|sp0: Subphrase| sp0@) =~= pre.push(tail@));
            assert(pre.push(tail@) =~= pre + seq![tail@]);
        }
        return out;
    }
    // nonempty delimiter: scan for leftmost matches
    let dlen = delim.len();
    let mut start: usize = 0;
    let mut i: usize = 0;
    while i + dlen <= phrase.len()
        invariant
            0 <= start <= i <= phrase@.len(),
            dlen == delim@.len(),
            1 <= dlen,
            phrase@.len() + delim@.len() <= i32::MAX,
            out@.map_values(|sp: Subphrase| sp@) + spec_split_scan(
                phrase@,
                delim@,
                start as int,
                i as int,
            ) == spec_split(phrase@, delim@),
        decreases phrase@.len() - i,
    {
        if match_at(phrase, delim, i) {
            let mut piece: Vec<u8> = Vec::new();
            let mut k: usize = start;
            while k < i
                invariant
                    start <= k <= i <= phrase@.len(),
                    piece@ == phrase@.subrange(start as int, k as int),
                decreases i - k,
            {
                piece.push(phrase[k]);
                proof {
                    assert(phrase@.subrange(start as int, k + 1) =~= phrase@.subrange(
                        start as int,
                        k as int,
                    ).push(phrase@[k as int]));
                }
                k = k + 1;
            }
            let ghost pre = out@.map_values(|sp: Subphrase| sp@);
            let sp = Subphrase { str: piece, idx: start as i32 };
            out.push(sp);
            proof {
                assert(out@.map_values(|sp0: Subphrase| sp0@) =~= pre.push(sp@));
                assert(forall|t: Seq<SpecSubphrase>| pre.push(sp@) + t =~= pre + (seq![sp@] + t));
            }
            i = i + dlen;
            start = i;
        } else {
            i = i + 1;
        }
    }
    // the remainder is the final piece
    let mut piece: Vec<u8> = Vec::new();
    let mut k: usize = start;
    while k < phrase.len()
        invariant
            start <= k <= phrase@.len(),
            piece@ == phrase@.subrange(start as int, k as int),
        decreases phrase@.len() - k,
    {
        piece.push(phrase[k]);
        proof {
            assert(phrase@.subrange(start as int, k + 1) =~= phrase@.subrange(
                start as int,
                k as int,
            ).push(phrase@[k as int]));
        }
        k = k + 1;
    }
    proof {
        assert(piece@ =~= phrase@.subrange(start as int, phrase@.len() as int));
    }
    let ghost pre = out@.map_values(|sp: Subphrase| sp@);
    let sp = Subphrase { str: piece, idx: start as i32 };
    out.push(sp);
    proof {
        assert(out@.map_values(|sp0: Subphrase| sp0@) =~= pre.push(sp@));
        assert(pre.push(sp@) =~= pre + seq![sp@]);
    }
    out
}

/// The integer held by a scalar item.
pub open spec fn item_int(v: SpecItem) -> int {
    match v {
        SpecItem::Sc(SpecScalar::Int(i)) => i,
        _ => 0,
    }
}

/// The string bytes held by a scalar item.
pub open spec fn item_str(v: SpecItem) -> Seq<u8> {
    match v {
        SpecItem::Sc(SpecScalar::Str(b)) => b,
        _ => Seq::empty(),
    }
}

/// The field name `str`, as bytes.
pub open spec fn spec_str_field_name() -> Seq<u8> {
    seq![115u8, 116u8, 114u8]
}

/// The field name `idx`, as bytes.
pub open spec fn spec_idx_field_name() -> Seq<u8> {
    seq![105u8, 100u8, 120u8]
}

fn str_field_name() -> (v: Vec<u8>)
    ensures
        v@ == spec_str_field_name(),
{
    let mut v: Vec<u8> = Vec::new();
    v.push(115);
    v.push(116);
    v.push(114);
    proof {
        assert(v@ =~= spec_str_field_name());
    }
    v
}

fn idx_field_name() -> (v: Vec<u8>)
    ensures
        v@ == spec_idx_field_name(),
{
    let mut v: Vec<u8> = Vec::new();
    v.push(105);
    v.push(100);
    v.push(120);
    proof {
        assert(v@ =~= spec_idx_field_name());
    }
    v
}

/// A split piece as the declared result record `{str, idx}`, fields in
/// declaration order.
pub open spec fn sub_to_spec_record(sp: SpecSubphrase) -> SpecRecord {
    SpecRecord {
        fields: seq![
            SpecField { name: spec_str_field_name(), value: SpecScalar::Str(sp.str) },
            SpecField { name: spec_idx_field_name(), value: SpecScalar::Int(sp.idx) },
        ],
    }
}

/// The whole dispatch protocol for one call, as a function of the call's own
/// inputs alone: match the name over the statically known exports, decode the
/// payload as that export's positional typed arguments, run it, and wrap the
/// result in a singleton array.  Unknown names and untypable payloads trap.
#[verifier::opaque]
pub open spec fn spec_guest_handle(name: Seq<u8>, p: Seq<u8>) -> Result<Seq<u8>, TrapError> {
    if name == spec_power_name() {
        match spec_parse_payload(p) {
            None => Err(TrapError::DecodeFailure),
            Some(args) => if args.len() == 2 && item_matches(args[0], SpecShape::Sc(ScalarShape::I32))
                && item_matches(args[1], SpecShape::Sc(ScalarShape::I32)) {
                Ok(
                    spec_ser_payload(
                        seq![
                            SpecItem::Sc(
                                SpecScalar::Int(
                                    spec_pow_wrap(
                                        item_int(args[0]) as i32,
                                        item_int(args[1]),
                                    ) as int,
                                ),
                            ),
                        ],
                    ),
                )
            } else {
                Err(TrapError::DecodeFailure)
            },
        }
    } else if name == spec_split_name() {
        match spec_parse_payload(p) {
            None => Err(TrapError::DecodeFailure),
            Some(args) => if args.len() == 2 && item_matches(args[0], SpecShape::Sc(ScalarShape::Str))
                && item_matches(args[1], SpecShape::Sc(ScalarShape::Str)) {
                let ph = item_str(args[0]);
                let d = item_str(args[1]);
                if ph.len() + d.len() > i32::MAX {
                    Err(TrapError::GuestPanic)
                } else {
                    Ok(
                        spec_ser_payload(
                            seq![
                                SpecItem::RecList(
                                    spec_split(ph, d).map_values(
                                        |sp: SpecSubphrase| sub_to_spec_record(sp),
                                    ),
                                ),
                            ],
                        ),
                    )
                }
            } else {
                Err(TrapError::DecodeFailure)
            },
        }
    } else {
        Err(TrapError::UnknownName)
    }
}

proof fn lemma_cont_run_end_bounds(p: Seq<u8>, j0: int)
    requires
        0 <= j0 <= p.len(),
    ensures
        j0 <= cont_run_end(p, j0) <= p.len(),
    decreases p.len() - j0,
{
    if j0 < p.len() && is_cont(p[j0]) {
        lemma_cont_run_end_bounds(p, j0 + 1);
    }
}

proof fn lemma_split_empty_props(p: Seq<u8>, i: int)
    requires
        0 <= i <= p.len(),
    ensures
        spec_split_empty(p, i).len() >= 1,
        forall|k: int|
            0 <= k < spec_split_empty(p, i).len() ==> 0 <= (#[trigger] spec_split_empty(p, i)[k]).idx
                <= p.len(),
    decreases p.len() - i,
{
    if i >= p.len() {
    } else {
        lemma_cont_run_end_bounds(p, i + 1);
        let j = cont_run_end(p, i + 1);
        lemma_split_empty_props(p, j);
    }
}

proof fn lemma_split_scan_props(p: Seq<u8>, d: Seq<u8>, start: int, i: int)
    requires
        d.len() >= 1,
        0 <= start <= i <= p.len(),
    ensures
        spec_split_scan(p, d, start, i).len() >= 1,
        forall|k: int|
            0 <= k < spec_split_scan(p, d, start, i).len() ==> 0 <= (#[trigger] spec_split_scan(
                p,
                d,
                start,
                i,
            )[k]).idx <= p.len(),
    decreases p.len() - i,
{
    if i + d.len() > p.len() {
    } else if is_match(p, d, i) {
        lemma_split_scan_props(p, d, i + d.len(), i + d.len());
    } else {
        lemma_split_scan_props(p, d, start, i + 1);
    }
}

/// A split always yields at least one piece, and every piece's offset lies
/// within the phrase.
pub proof fn lemma_split_props(p: Seq<u8>, d: Seq<u8>)
    ensures
        spec_split(p, d).len() >= 1,
        forall|k: int|
            0 <= k < spec_split(p, d).len() ==> 0 <= (#[trigger] spec_split(p, d)[k]).idx
                <= p.len(),
{
    if d.len() == 0 {
        lemma_split_empty_props(p, 0);
    } else {
        lemma_split_scan_props(p, d, 0, 0);
    }
}

/// Whatever the dispatch returns successfully is a well-formed encoded
/// payload: the host's defensive re-parse of the result bytes cannot fail.
#[verifier::rlimit(100)]
pub proof fn lemma_guest_output_parses(name: Seq<u8>, p: Seq<u8>)
    ensures
        match spec_guest_handle(name, p) {
            Ok(o) => spec_parse_payload(o) is Some,
            Err(_) => true,
        },
{
    reveal(spec_guest_handle);
    match spec_guest_handle(name, p) {
        Ok(o) => {
            if name == spec_power_name() {
                let args = spec_parse_payload(p)->Some_0;
                let v = spec_pow_wrap(item_int(args[0]) as i32, item_int(args[1])) as int;
                let items = seq![SpecItem::Sc(SpecScalar::Int(v))];
                assert(crate::roundtrip::wf_items(items)) by {
                    assert(items[0] == SpecItem::Sc(SpecScalar::Int(v)));
                }
                assert(crate::roundtrip::canonical_items(items)) by {
                    assert(items[0] == SpecItem::Sc(SpecScalar::Int(v)));
                }
                crate::roundtrip::lemma_payload_round_trip(items);
            } else {
                let args = spec_parse_payload(p)->Some_0;
                let ph = item_str(args[0]);
                let d = item_str(args[1]);
                let target = spec_split(ph, d).map_values(
                    |sp: SpecSubphrase| sub_to_spec_record(sp),
                );
                let items = seq![SpecItem::RecList(target)];
                lemma_split_props(ph, d);
                assert(ph.len() + d.len() <= i32::MAX);
                assert(crate::roundtrip::wf_items(items)) by {
                    assert(items[0] == SpecItem::RecList(target));
                    assert forall|k: int| 0 <= k < target.len() implies crate::roundtrip::wf_record(
                        #[trigger] target[k],
                    ) by {
                        assert(target[k] == sub_to_spec_record(spec_split(ph, d)[k]));
                        let r = target[k];
                        assert(r.fields[0].value == SpecScalar::Str(spec_split(ph, d)[k].str));
                        assert(r.fields[1].value == SpecScalar::Int(spec_split(ph, d)[k].idx));
                        assert(0 <= spec_split(ph, d)[k].idx <= ph.len());
                    }
                }
                assert(crate::roundtrip::canonical_items(items)) by {
                    assert(items[0] == SpecItem::RecList(target));
                    assert(target.len() >= 1);
                }
                crate::roundtrip::lemma_payload_round_trip(items);
            }
        },
        Err(_) => {},
    }
}

/// The declared result type of the split export:
/// `list<record{str: string, idx: s32}>`.
pub open spec fn spec_split_result_shape() -> SpecShape {
    SpecShape::RecList(
        seq![
            SpecFieldShape { name: spec_str_field_name(), shape: ScalarShape::Str },
            SpecFieldShape { name: spec_idx_field_name(), shape: ScalarShape::I32 },
        ],
    )
}

/// The split export returns a value of its declared result type: every
/// piece becomes a record with exactly the declared fields, and every
/// offset fits the declared 32-bit integer.
pub proof fn lemma_split_result_typed(ph: Seq<u8>, d: Seq<u8>)
    requires
        ph.len() + d.len() <= i32::MAX,
    ensures
        item_matches(
            SpecItem::RecList(spec_split(ph, d).map_values(|sp: SpecSubphrase| sub_to_spec_record(sp))),
            spec_split_result_shape(),
        ),
{
    lemma_split_props(ph, d);
    let target = spec_split(ph, d).map_values(|sp: SpecSubphrase| sub_to_spec_record(sp));
    let fs = match spec_split_result_shape() {
        SpecShape::RecList(fs) => fs,
        _ => Seq::empty(),
    };
    assert forall|k: int| 0 <= k < target.len() implies crate::value::record_matches(
        #[trigger] target[k],
        fs,
    ) by {
        assert(target[k] == sub_to_spec_record(spec_split(ph, d)[k]));
        let r = target[k];
        assert(r.fields[0].name == fs[0].name);
        assert(r.fields[1].name == fs[1].name);
        assert(r.fields[0].value == SpecScalar::Str(spec_split(ph, d)[k].str));
        assert(r.fields[1].value == SpecScalar::Int(spec_split(ph, d)[k].idx));
        assert(0 <= spec_split(ph, d)[k].idx <= ph.len());
    }
}

/// Unknown-name dispatch: a name that matches no export of the table traps,
/// whatever the payload holds — never a default or empty success.
pub proof fn lemma_unknown_name_traps(name: Seq<u8>, p: Seq<u8>)
    requires
        name != spec_power_name(),
        name != spec_split_name(),
    ensures
        spec_guest_handle(name, p) == Err::<Seq<u8>, TrapError>(TrapError::UnknownName),
{
    reveal(spec_guest_handle);
}

/// The guest's dispatch entry point: one call, from `(name, payload)` to the
/// encoded singleton result or a trap.
pub fn handle_json(name: &[u8], payload: &[u8]) -> (r: Result<Vec<u8>, TrapError>)
    ensures
        match r {
            Ok(b) => spec_guest_handle(name@, payload@) == Ok::<Seq<u8>, TrapError>(b@),
            Err(e) => spec_guest_handle(name@, payload@) == Err::<Seq<u8>, TrapError>(e),
        },
{
    proof {
        reveal(spec_guest_handle);
    }
    let pw = power_name();
    let sl = split_name();
    if bytes_eq(name, pw.as_slice()) {
        let args = match decode_payload(payload) {
            None => {
                return Err(TrapError::DecodeFailure);
            },
            Some(a) => a,
        };
        let ghost sargs = args@.map_values(|v: Item| v@);
        if args.len() != 2 {
            return Err(TrapError::DecodeFailure);
        }
        let a: i32 = match &args[0] {
            Item::Sc(Scalar::Int(x)) => {
                if i32::MIN as i64 <= *x && *x <= i32::MAX as i64 {
                    *x as i32
                } else {
                    return Err(TrapError::DecodeFailure);
                }
            },
            _ => {
                return Err(TrapError::DecodeFailure);
            },
        };
        let b: i32 = match &args[1] {
            Item::Sc(Scalar::Int(x)) => {
                if i32::MIN as i64 <= *x && *x <= i32::MAX as i64 {
                    *x as i32
                } else {
                    return Err(TrapError::DecodeFailure);
                }
            },
            _ => {
                return Err(TrapError::DecodeFailure);
            },
        };
        let res = power_of(a, b);
        let mut items: Vec<Item> = Vec::new();
        items.push(Item::Sc(Scalar::Int(res as i64)));
        proof {
            assert(items@.map_values(|v: Item| v@) =~= seq![
                SpecItem::Sc(SpecScalar::Int(res as int)),
            ]);
        }
        let out = encode_payload(&items);
        Ok(out)
    } else if bytes_eq(name, sl.as_slice()) {
        let args = match decode_payload(payload) {
            None => {
                return Err(TrapError::DecodeFailure);
            },
            Some(a) => a,
        };
        if args.len() != 2 {
            return Err(TrapError::DecodeFailure);
        }
        let ghost sargs = args@.map_values(|v: Item| v@);
        let (ph, d) = match (&args[0], &args[1]) {
            (Item::Sc(Scalar::Str(p0)), Item::Sc(Scalar::Str(p1))) => (p0, p1),
            _ => {
                return Err(TrapError::DecodeFailure);
            },
        };
        if d.len() > i32::MAX as usize {
            return Err(TrapError::GuestPanic);
        }
        if ph.len() > (i32::MAX as usize) - d.len() {
            return Err(TrapError::GuestPanic);
        }
        let subs = split_str(ph.as_slice(), d.as_slice());
        let ghost target = spec_split(ph@, d@).map_values(|sp: SpecSubphrase| sub_to_spec_record(sp));
        let ghost orig = subs@;
        let mut subs = subs;
        let mut recs: Vec<RecordVal> = Vec::new();
        proof {
            assert(subs@ =~= orig.take(subs@.len() as int));
            assert(recs@.map_values(|r0: RecordVal| r0@) =~= target.skip(subs@.len() as int));
        }
        while subs.len() > 0
            invariant
                subs@.len() <= orig.len(),
                subs@ == orig.take(subs@.len() as int),
                orig.map_values(|sp: Subphrase| sp@) == spec_split(ph@, d@),
                target == spec_split(ph@, d@).map_values(|sp: SpecSubphrase| sub_to_spec_record(sp)),
                recs@.map_values(|r0: RecordVal| r0@) == target.skip(subs@.len() as int),
            decreases subs@.len(),
        {
            let ghost k = subs@.len() as int;
            let sp = match subs.pop() {
                Some(sp) => sp,
                None => {
                    proof {
                        assert(false);
                    }
                    return Err(TrapError::GuestPanic);
                },
            };
            proof {
                assert(sp == orig.take(k)[k - 1]);
                assert(orig.take(k)[k - 1] == orig[k - 1]);
                assert(subs@ =~= orig.take(k - 1));
            }
            let mut fields: Vec<FieldVal> = Vec::new();
            fields.push(FieldVal { name: str_field_name(), value: Scalar::Str(sp.str) });
            fields.push(FieldVal { name: idx_field_name(), value: Scalar::Int(sp.idx as i64) });
            let rec = RecordVal { fields };
            proof {
                assert(rec@.fields =~= sub_to_spec_record(sp@).fields);
                assert(rec@ =~= sub_to_spec_record(sp@));
                assert(target[k - 1] == sub_to_spec_record(orig.map_values(|sp0: Subphrase| sp0@)[k
                    - 1]));
                assert(orig.map_values(|sp0: Subphrase| sp0@)[k - 1] == orig[k - 1]@);
            }
            let ghost pre = recs@.map_values(|r0: RecordVal| r0@);
            recs.insert(0, rec);
            proof {
                assert(recs@.map_values(|r0: RecordVal| r0@) =~= seq![rec@] + pre);
                assert(seq![rec@] + target.skip(k) =~= target.skip(k - 1));
            }
        }
        proof {
            assert(recs@.map_values(|r0: RecordVal| r0@) =~= target);
        }
        let mut items: Vec<Item> = Vec::new();
        items.push(Item::RecList(recs));
        proof {
            assert(items@.map_values(|v: Item| v@) =~= seq![SpecItem::RecList(target)]);
        }
        let out = encode_payload(&items);
        Ok(out)
    } else {
        Err(TrapError::UnknownName)
    }
}

} // verus!
