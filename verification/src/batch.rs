//! The row mapping the network-facing collaborator performs: a batch of rows
//! arrives, each row an identifier followed by the call's inputs; every row
//! becomes one dispatch call, and every element of the parsed output becomes
//! one result row `[id, cell]`, with compound cells carried as their JSON
//! text.  The transport around this — HTTP, headers, body I/O — stays
//! outside; this is the batch's logic alone.

use vstd::prelude::*;

use crate::host::CallError;
use crate::host::Handler;
use crate::host::PayloadError;
use crate::host::spec_handle_json;
use crate::json::decode_payload;
use crate::json::encode_item;
use crate::json::encode_payload;
use crate::json::spec_parse_payload;
use crate::json::spec_ser_item;
use crate::json::spec_ser_payload;
use crate::value::copy_item;
use crate::value::Item;
use crate::value::Scalar;
use crate::value::SpecItem;
use crate::value::SpecScalar;

verus! {

/// Why a batch failed.  The first failing row aborts the batch.
#[derive(PartialEq, Eq, Structural, Clone, Copy, Debug)]
pub enum BatchError {
    /// A row with no elements: there is no identifier to echo back.
    EmptyRow,
    /// The dispatch call for some row failed.
    Call(CallError),
    /// A row's result bytes did not parse as encoded output.
    Payload(PayloadError),
}

/// How one output value becomes a result cell: scalars pass through, and a
/// compound value is carried as the JSON text that encodes it.
pub open spec fn spec_encode_cell(v: SpecItem) -> SpecItem {
    match v {
        SpecItem::Sc(x) => SpecItem::Sc(x),
        _ => SpecItem::Sc(SpecScalar::Str(spec_ser_item(v))),
    }
}

/// The result rows of one input row: one `[id, cell]` row per element of the
/// parsed output.
pub open spec fn spec_expand_row(row_id: SpecItem, out: Seq<SpecItem>) -> Seq<Seq<SpecItem>> {
    Seq::new(out.len(), |k: int| seq![row_id, spec_encode_cell(out[k])])
}

/// One row's fate: its tail is encoded as the payload of one dispatch call
/// under `nb`, and the call's parsed output is expanded into result rows.
#[verifier::opaque]
pub open spec fn spec_row_result(nb: Seq<u8>, row: Seq<SpecItem>) -> Result<
    Seq<Seq<SpecItem>>,
    BatchError,
> {
    if row.len() == 0 {
        Err(BatchError::EmptyRow)
    } else {
        match spec_handle_json(nb, spec_ser_payload(row.drop_first())) {
            Err(e) => Err(BatchError::Call(e)),
            Ok(out) => match spec_parse_payload(out) {
                None => Err(BatchError::Payload(PayloadError {})),
                Some(items) => Ok(spec_expand_row(row[0], items)),
            },
        }
    }
}

/// The whole batch, row by row; the first failing row aborts it.
pub open spec fn spec_process_rows(nb: Seq<u8>, rows: Seq<Seq<SpecItem>>) -> Result<
    Seq<Seq<SpecItem>>,
    BatchError,
>
    decreases rows.len(),
{
    if rows.len() == 0 {
        Ok(Seq::empty())
    } else {
        match spec_row_result(nb, rows[0]) {
            Err(e) => Err(e),
            Ok(exp) => match spec_process_rows(nb, rows.drop_first()) {
                Err(e) => Err(e),
                Ok(rest) => Ok(exp + rest),
            },
        }
    }
}

/// Run one row: encode its tail, make the dispatch call, parse and expand
/// the output.
fn process_one_row(handler: &mut Handler, name: &String, row: Vec<Item>) -> (r: Result<
    Vec<Vec<Item>>,
    BatchError,
>)
    ensures
        ({
            let nb = vstd::utf8::encode_utf8(name@);
            let rowv = row@.map_values(|v: Item| v@);
            match r {
                Ok(out) => spec_row_result(nb, rowv) == Ok::<Seq<Seq<SpecItem>>, BatchError>(
                    out@.map_values(|r0: Vec<Item>| r0@.map_values(|v: Item| v@)),
                ),
                Err(e) => spec_row_result(nb, rowv) == Err::<Seq<Seq<SpecItem>>, BatchError>(e),
            }
        }),
{
    proof {
        reveal(spec_row_result);
    }
    let ghost rowv = row@.map_values(|v: Item| v@);
    let mut row = row;
    if row.len() == 0 {
        return Err(BatchError::EmptyRow);
    }
    let row_id = row.remove(0);
    proof {
        assert(row@.map_values(|v: Item| v@) =~= rowv.drop_first());
        assert(row_id@ == rowv[0]);
    }
    let payload = encode_payload(&row);
    let out_bytes = match handler.handle_json(name.clone(), payload) {
        Err(e) => {
            return Err(BatchError::Call(e));
        },
        Ok(b) => b,
    };
    let out_items = match decode_payload(out_bytes.as_slice()) {
        None => {
            return Err(BatchError::Payload(PayloadError {}));
        },
        Some(items) => items,
    };
    Ok(expand_row(&row_id, &out_items))
}

/// Expand one call's parsed output into result rows.
fn expand_row(row_id: &Item, out_items: &Vec<Item>) -> (r: Vec<Vec<Item>>)
    ensures
        r@.map_values(|row: Vec<Item>| row@.map_values(|v: Item| v@)) == spec_expand_row(
            row_id@,
            out_items@.map_values(|v: Item| v@),
        ),
{
    let ghost outv = out_items@.map_values(|v: Item| v@);
    let mut result: Vec<Vec<Item>> = Vec::new();
    let n = out_items.len();
    let mut k: usize = 0;
    proof {
        assert(result@.map_values(|r0: Vec<Item>| r0@.map_values(|v: Item| v@)) =~= spec_expand_row(
            row_id@,
            outv,
        ).take(0));
    }
    while k < n
        invariant
            k <= n,
            n == out_items@.len(),
            outv == out_items@.map_values(|v: Item| v@),
            result@.map_values(|r0: Vec<Item>| r0@.map_values(|v: Item| v@)) == spec_expand_row(
                row_id@,
                outv,
            ).take(k as int),
        decreases n - k,
    {
        let mut out_row: Vec<Item> = Vec::new();
        out_row.push(copy_item(row_id));
        let item = &out_items[k];
        let cell = match item {
            Item::Sc(_) => copy_item(item),
            _ => Item::Sc(Scalar::Str(encode_item(item))),
        };
        out_row.push(cell);
        let ghost pre = result@.map_values(|r0: Vec<Item>| r0@.map_values(|v: Item| v@));
        proof {
            assert(out_row@.map_values(|v: Item| v@) =~= seq![
                row_id@,
                spec_encode_cell(outv[k as int]),
            ]);
        }
        result.push(out_row);
        proof {
            assert(result@.map_values(|r0: Vec<Item>| r0@.map_values(|v: Item| v@)) =~= pre.push(
                seq![row_id@, spec_encode_cell(outv[k as int])],
            ));
            assert(spec_expand_row(row_id@, outv).take(k + 1) =~= spec_expand_row(
                row_id@,
                outv,
            ).take(k as int).push(seq![row_id@, spec_encode_cell(outv[k as int])]));
        }
        k = k + 1;
    }
    proof {
        assert(spec_expand_row(row_id@, outv).take(n as int) =~= spec_expand_row(row_id@, outv));
    }
    result
}

/// Run a batch of rows against one handler.  Each row makes its own dispatch
/// call; the result is a function of the name and the rows alone.
#[verifier::rlimit(100)]
#[verifier::loop_isolation(false)]
pub fn process_rows(handler: &mut Handler, name: &String, rows: Vec<Vec<Item>>) -> (r: Result<
    Vec<Vec<Item>>,
    BatchError,
>)
    ensures
        ({
            let nb = vstd::utf8::encode_utf8(name@);
            let rv = rows@.map_values(|row: Vec<Item>| row@.map_values(|v: Item| v@));
            match r {
                Ok(out) => spec_process_rows(nb, rv) == Ok::<Seq<Seq<SpecItem>>, BatchError>(
                    out@.map_values(|row: Vec<Item>| row@.map_values(|v: Item| v@)),
                ),
                Err(e) => spec_process_rows(nb, rv) == Err::<Seq<Seq<SpecItem>>, BatchError>(e),
            }
        }),
{
    let ghost nb = vstd::utf8::encode_utf8(name@);
    let ghost rv = rows@.map_values(|row: Vec<Item>| row@.map_values(|v: Item| v@));
    let mut remaining = rows;
    let mut result: Vec<Vec<Item>> = Vec::new();
    proof {
        assert(remaining@.map_values(|row: Vec<Item>| row@.map_values(|v: Item| v@)) =~= rv);
        assert(result@.map_values(|row: Vec<Item>| row@.map_values(|v: Item| v@))
            =~= Seq::<Seq<SpecItem>>::empty());
    }
    while remaining.len() > 0
        invariant
            nb == vstd::utf8::encode_utf8(name@),
            ({
                let remv = remaining@.map_values(|row: Vec<Item>| row@.map_values(|v: Item| v@));
                let accv = result@.map_values(|row: Vec<Item>| row@.map_values(|v: Item| v@));
                spec_process_rows(nb, rv) == match spec_process_rows(nb, remv) {
                    Err(e) => Err::<Seq<Seq<SpecItem>>, BatchError>(e),
                    Ok(rest) => Ok::<Seq<Seq<SpecItem>>, BatchError>(accv + rest),
                }
            }),
        decreases remaining@.len(),
    {
        let ghost remv0 = remaining@.map_values(|row: Vec<Item>| row@.map_values(|v: Item| v@));
        let row = remaining.remove(0);
        proof {
            assert(remaining@.map_values(|r0: Vec<Item>| r0@.map_values(|v: Item| v@))
                =~= remv0.drop_first());
            assert(row@.map_values(|v: Item| v@) == remv0[0]);
        }
        let mut new_rows = match process_one_row(handler, name, row) {
            Err(e) => {
                return Err(e);
            },
            Ok(nr) => nr,
        };
        let ghost acc0 = result@.map_values(|r0: Vec<Item>| r0@.map_values(|v: Item| v@));
        let ghost expv = new_rows@.map_values(|r0: Vec<Item>| r0@.map_values(|v: Item| v@));
        result.append(&mut new_rows);
        proof {
            let accv = result@.map_values(|r0: Vec<Item>| r0@.map_values(|v: Item| v@));
            assert(accv =~= acc0 + expv);
            assert forall|rest: Seq<Seq<SpecItem>>| acc0 + (expv + rest) =~= accv + rest by {}
        }
    }
    proof {
        let accv = result@.map_values(|r0: Vec<Item>| r0@.map_values(|v: Item| v@));
        assert(accv + Seq::<Seq<SpecItem>>::empty() =~= accv);
    }
    Ok(result)
}

} // verus!
