//! The host side: compiling guest module bytes into an immutable artifact,
//! declaring the capabilities a guest may import, checking the guest's
//! dispatch export before any call, and running the per-call execution
//! context that carries one `(name, payload)` invocation through linear
//! memory to the dispatch entry point and back.

use vstd::prelude::*;

use crate::abi::encode_ret_area;
use crate::abi::encode_string;
use crate::abi::decode_string;
use crate::abi::read_ret_area;
use crate::abi::spec_le32;
use crate::abi::Mem;
use crate::guest::handle_json as guest_handle_json;
use crate::guest::lemma_guest_output_parses;
use crate::guest::spec_guest_handle;
use crate::guest::TrapError;
use crate::json::decode_payload;

verus! {

/// Malformed or unsupported guest bytecode: the module is refused outright
/// and no handler is ever made from it.
#[derive(PartialEq, Eq, Structural, Clone, Copy, Debug)]
pub enum CompileError {
    /// Shorter than the eight-byte preamble.
    TooSmall,
    /// The magic number is not `\0asm`.
    BadMagic,
    /// The version word is not 1.
    BadVersion,
    /// The section framing is broken: an unknown section id, a length that
    /// overruns the module, or a truncated length.
    BadSection,
    /// The import section's contents do not parse.
    BadImportSection,
    /// The export section's contents do not parse.
    BadExportSection,
}

/// The guest's dispatch export does not match the expected signature.
#[derive(PartialEq, Eq, Structural, Clone, Copy, Debug)]
pub struct InterfaceMismatchError {}

/// The guest's imports or exports do not match what the host offers and
/// expects.
#[derive(PartialEq, Eq, Structural, Clone, Copy, Debug)]
pub enum LinkError {
    /// Some import asks for a module outside the offered capability set.
    ImportOutsideCapabilitySet,
    /// No export matches the expected dispatch entry.
    Interface(InterfaceMismatchError),
}

/// Why a handler factory could not be built: a module-level failure, never
/// retried.
#[derive(PartialEq, Eq, Structural, Clone, Copy, Debug)]
pub enum BuildError {
    Compile(CompileError),
    Link(LinkError),
}

/// Resource exhaustion while creating an execution context: fatal for that
/// call only.
#[derive(PartialEq, Eq, Structural, Clone, Copy, Debug)]
pub struct InstantiateError {}

/// The result bytes of a successful call did not parse as encoded output: a
/// defensive host-side check.
#[derive(PartialEq, Eq, Structural, Clone, Copy, Debug)]
pub struct PayloadError {}

/// Why one call failed.  The shared module and capability set stay valid.
#[derive(PartialEq, Eq, Structural, Clone, Copy, Debug)]
pub enum CallError {
    Trap(TrapError),
    Payload(PayloadError),
}

/// An unsigned LEB128 number at `i`: low seven bits per byte, high bit as
/// continuation flag, at most `k` bytes.  Returns the value and the index
/// after it.
pub open spec fn spec_leb(b: Seq<u8>, i: int, k: nat) -> Option<(nat, int)>
    decreases k,
{
    if k == 0 {
        None
    } else if !(0 <= i < b.len()) {
        None
    } else if b[i] < 128 {
        Some((b[i] as nat, i + 1))
    } else {
        match spec_leb(b, i + 1, (k - 1) as nat) {
            None => None,
            Some((v, j)) => Some(((b[i] - 128) as nat + 128 * v, j)),
        }
    }
}

pub open spec fn pow128(k: nat) -> nat
    decreases k,
{
    if k == 0 {
        1
    } else {
        128 * pow128((k - 1) as nat)
    }
}

proof fn lemma_pow128_pos(k: nat)
    ensures
        pow128(k) >= 1,
    decreases k,
{
    if k > 0 {
        lemma_pow128_pos((k - 1) as nat);
    }
}

proof fn lemma_leb_bound(b: Seq<u8>, i: int, k: nat)
    ensures
        match spec_leb(b, i, k) {
            None => true,
            Some((v, j)) => v < pow128(k) && i < j <= b.len(),
        },
    decreases k,
{
    if k == 0 {
    } else if !(0 <= i < b.len()) {
    } else if b[i] < 128 {
        lemma_pow128_pos((k - 1) as nat);
        assert(pow128(k) == 128 * pow128((k - 1) as nat));
    } else {
        lemma_leb_bound(b, i + 1, (k - 1) as nat);
        assert(pow128(k) == 128 * pow128((k - 1) as nat));
    }
}

/// Read an unsigned LEB128 number, at most `k <= 5` bytes.
fn parse_leb(b: &[u8], i: usize, k: u32) -> (r: Option<(u64, usize)>)
    requires
        i <= b@.len(),
        k <= 5,
    ensures
        spec_leb(b@, i as int, k as nat) == match r {
            None => None::<(nat, int)>,
            Some((v, j)) => Some((v as nat, j as int)),
        },
        r matches Some((v, j)) ==> i < j <= b@.len() && v < 34359738368,
    decreases k,
{
    proof {
        lemma_leb_bound(b@, i as int, k as nat);
        reveal_with_fuel(pow128, 6);
        assert(pow128(5) == 34359738368);
        assert(pow128(k as nat) <= pow128(5)) by {
            reveal_with_fuel(pow128, 6);
        }
    }
    if k == 0 {
        return None;
    }
    if i >= b.len() {
        return None;
    }
    let byte = b[i];
    if byte < 128 {
        Some((byte as u64, i + 1))
    } else {
        match parse_leb(b, i + 1, k - 1) {
            None => None,
            Some((v, j)) => {
                proof {
                    lemma_leb_bound(b@, i + 1, (k - 1) as nat);
                    reveal_with_fuel(pow128, 6);
                    assert(pow128((k - 1) as nat) <= pow128(4));
                }
                Some(((byte - 128) as u64 + 128 * v, j))
            },
        }
    }
}

/// The section framing of a module, from `i` to the end: each section is an
/// id byte no greater than 12, a LEB128 size, and that many payload bytes,
/// ending exactly at the end of the module.  Custom sections (id 0) may
/// stand anywhere; every other id must exceed `last`, the largest
/// non-custom id seen so far — so non-custom sections appear in increasing
/// order, each at most once.
pub open spec fn spec_sections_ok(b: Seq<u8>, i: int, last: int) -> bool
    decreases b.len() - i,
{
    if i == b.len() {
        true
    } else if !(0 <= i < b.len()) {
        false
    } else if b[i] > 12 {
        false
    } else if b[i] != 0 && b[i] <= last {
        false
    } else {
        match spec_leb(b, i + 1, 5) {
            None => false,
            Some((size, next)) => {
                &&& size < 4294967296
                &&& next + size <= b.len()
                &&& i < next + size
                &&& spec_sections_ok(b, next + size, if b[i] == 0 {
                    last
                } else {
                    b[i] as int
                })
            },
        }
    }
}

/// Walk the section framing.
fn check_sections(b: &[u8], start: usize) -> (r: bool)
    requires
        start <= b@.len(),
    ensures
        r == spec_sections_ok(b@, start as int, 0),
{
    let n = b.len();
    let mut cur = start;
    let mut last: u8 = 0;
    while cur < n
        invariant
            start <= cur <= n,
            n == b@.len(),
            spec_sections_ok(b@, start as int, 0) == spec_sections_ok(b@, cur as int, last as int),
        decreases n - cur,
    {
        if b[cur] > 12 {
            return false;
        }
        if b[cur] != 0 && b[cur] <= last {
            return false;
        }
        match parse_leb(b, cur + 1, 5) {
            None => {
                return false;
            },
            Some((size, next)) => {
                if size >= 4294967296u64 {
                    return false;
                }
                if size > (n - next) as u64 {
                    return false;
                }
                let size_us = size as usize;
                assert(next + size_us <= n);
                if b[cur] != 0 {
                    last = b[cur];
                }
                cur = next + size_us;
            },
        }
    }
    true
}

/// Find the first section with the given id.
fn find_section(b: &[u8], start: usize, id: u8) -> (r: Option<(usize, usize)>)
    requires
        start <= b@.len(),
    ensures
        spec_find_section(b@, start as int, id) == match r {
            None => None::<(int, int)>,
            Some((s, e)) => Some((s as int, e as int)),
        },
        r matches Some((s, e)) ==> s <= e <= b@.len(),
{
    let n = b.len();
    let mut cur = start;
    while cur < n
        invariant
            start <= cur <= n,
            n == b@.len(),
            spec_find_section(b@, start as int, id) == spec_find_section(b@, cur as int, id),
        decreases n - cur,
    {
        match parse_leb(b, cur + 1, 5) {
            None => {
                return None;
            },
            Some((size, next)) => {
                if size > (n - next) as u64 {
                    return None;
                }
                let size_us = size as usize;
                if b[cur] == id {
                    return Some((next, next + size_us));
                }
                assert(cur < next + size_us);
                cur = next + size_us;
            },
        }
    }
    None
}

/// Read a length-prefixed name; hand back the index after it and its range.
fn read_name(b: &[u8], i: usize) -> (r: Option<(usize, usize)>)
    requires
        i <= b@.len(),
    ensures
        match r {
            None => spec_name(b@, i as int) is None,
            Some((s, j)) => {
                &&& spec_name(b@, i as int) == Some((b@.subrange(s as int, j as int), j as int))
                &&& i < s <= j <= b@.len()
            },
        },
{
    match parse_leb(b, i, 5) {
        None => None,
        Some((n, j)) => {
            if n > (b.len() - j) as u64 {
                return None;
            }
            Some((j, j + n as usize))
        },
    }
}

/// Skip a limits encoding.
fn skip_limits(b: &[u8], i: usize) -> (r: Option<usize>)
    requires
        i <= b@.len(),
    ensures
        spec_skip_limits(b@, i as int) == match r {
            None => None::<int>,
            Some(j) => Some(j as int),
        },
        r matches Some(j) ==> i < j <= b@.len(),
{
    if i >= b.len() {
        return None;
    }
    if b[i] == 0 {
        match parse_leb(b, i + 1, 5) {
            None => None,
            Some((_, j)) => Some(j),
        }
    } else if b[i] == 1 {
        match parse_leb(b, i + 1, 5) {
            None => None,
            Some((_, j)) => match parse_leb(b, j, 5) {
                None => None,
                Some((_, j2)) => Some(j2),
            },
        }
    } else {
        None
    }
}

/// Skip an import description.
fn skip_importdesc(b: &[u8], i: usize) -> (r: Option<usize>)
    requires
        i <= b@.len(),
    ensures
        spec_skip_importdesc(b@, i as int) == match r {
            None => None::<int>,
            Some(j) => Some(j as int),
        },
        r matches Some(j) ==> i < j <= b@.len(),
{
    if i >= b.len() {
        return None;
    }
    if b[i] == 0 {
        match parse_leb(b, i + 1, 5) {
            None => None,
            Some((_, j)) => Some(j),
        }
    } else if b[i] == 1 {
        if b.len() - i >= 2 {
            skip_limits(b, i + 2)
        } else {
            None
        }
    } else if b[i] == 2 {
        skip_limits(b, i + 1)
    } else if b[i] == 3 {
        if b.len() - i >= 3 {
            Some(i + 3)
        } else {
            None
        }
    } else {
        None
    }
}

fn wasi_module_name() -> (v: Vec<u8>)
    ensures
        v@ == spec_wasi_module_name(),
{
    let mut v: Vec<u8> = Vec::new();
    v.push(119);
    v.push(97);
    v.push(115);
    v.push(105);
    v.push(95);
    v.push(115);
    v.push(110);
    v.push(97);
    v.push(112);
    v.push(115);
    v.push(104);
    v.push(111);
    v.push(116);
    v.push(95);
    v.push(112);
    v.push(114);
    v.push(101);
    v.push(118);
    v.push(105);
    v.push(101);
    v.push(119);
    v.push(49);
    proof {
        assert(v@ =~= spec_wasi_module_name());
    }
    v
}

fn entry_name() -> (v: Vec<u8>)
    ensures
        v@ == spec_entry_name(),
{
    let mut v: Vec<u8> = Vec::new();
    v.push(104);
    v.push(97);
    v.push(110);
    v.push(100);
    v.push(108);
    v.push(101);
    v.push(45);
    v.push(106);
    v.push(115);
    v.push(111);
    v.push(110);
    proof {
        assert(v@ =~= spec_entry_name());
    }
    v
}

/// Parse one import entry: is its module offered, is it a function, and
/// where does the next entry start.
fn import_entry(b: &[u8], i: usize) -> (r: Option<(bool, bool, usize)>)
    requires
        i <= b@.len(),
    ensures
        match r {
            None => spec_import_entry(b@, i as int) is None,
            Some((allowed, isfunc, j)) => {
                &&& spec_import_entry(b@, i as int) matches Some((mn, f, sj)) && allowed == (mn
                    == spec_wasi_module_name()) && isfunc == f && j == sj
                &&& i < j <= b@.len()
            },
        },
{
    let (ms, me) = match read_name(b, i) {
        None => {
            return None;
        },
        Some(p) => p,
    };
    let (_, j) = match read_name(b, me) {
        None => {
            return None;
        },
        Some(p) => p,
    };
    if j >= b.len() {
        return None;
    }
    let isfunc = b[j] == 0;
    let j3 = match skip_importdesc(b, j) {
        None => {
            return None;
        },
        Some(p) => p,
    };
    let wasi = wasi_module_name();
    let allowed = crate::guest::bytes_eq(vstd::slice::slice_subrange(b, ms, me), wasi.as_slice());
    Some((allowed, isfunc, j3))
}

/// Walk the import section's entries.
fn imports_walk(b: &[u8], start: usize, end: usize, cnt: u64) -> (r: Option<(bool, u64)>)
    requires
        start <= end <= b@.len(),
    ensures
        spec_imports_walk(b@, start as int, end as int, cnt as nat) == match r {
            None => None::<(bool, int)>,
            Some((ok, fc)) => Some((ok, fc as int)),
        },
{
    let mut cur = start;
    let mut rem = cnt;
    let mut all_ok = true;
    let mut fc: u64 = 0;
    while rem > 0
        invariant
            start <= cur <= end <= b@.len(),
            rem <= cnt,
            fc <= cnt - rem,
            spec_imports_walk(b@, start as int, end as int, cnt as nat) == match spec_imports_walk(
                b@,
                cur as int,
                end as int,
                rem as nat,
            ) {
                None => None::<(bool, int)>,
                Some((ok, c)) => Some((all_ok && ok, fc + c)),
            },
        decreases rem,
    {
        match import_entry(b, cur) {
            None => {
                return None;
            },
            Some((allowed, isfunc, j)) => {
                if j > end {
                    return None;
                }
                all_ok = all_ok && allowed;
                if isfunc {
                    fc = fc + 1;
                }
                cur = j;
                rem = rem - 1;
            },
        }
    }
    if cur != end {
        return None;
    }
    Some((all_ok, fc))
}

/// Parse the module's import section.
fn module_imports(b: &[u8]) -> (r: Option<(bool, u64)>)
    requires
        8 <= b@.len(),
    ensures
        spec_module_imports(b@) == match r {
            None => None::<(bool, int)>,
            Some((ok, fc)) => Some((ok, fc as int)),
        },
{
    match find_section(b, 8, 2) {
        None => Some((true, 0)),
        Some((s, e)) => match parse_leb(b, s, 5) {
            None => None,
            Some((cnt, j)) => {
                if j > e {
                    proof {
                        lemma_imports_walk_in_range(b@, j as int, e as int, cnt as nat);
                    }
                    return None;
                }
                imports_walk(b, j, e, cnt)
            },
        },
    }
}

/// A walk whose start lies past the section end parses nothing.
proof fn lemma_imports_walk_in_range(b: Seq<u8>, i: int, end: int, cnt: nat)
    requires
        i > end,
    ensures
        spec_imports_walk(b, i, end, cnt) is None,
{
    if cnt != 0 {
        match spec_import_entry(b, i) {
            None => {},
            Some((mn, f, j)) => {},
        }
    }
}
/// Skip one function type.
fn skip_functype(b: &[u8], i: usize) -> (r: Option<usize>)
    requires
        i <= b@.len(),
    ensures
        spec_skip_functype(b@, i as int) == match r {
            None => None::<int>,
            Some(j) => Some(j as int),
        },
        r matches Some(j) ==> i < j <= b@.len(),
{
    if i >= b.len() || b[i] != 0x60 {
        return None;
    }
    match parse_leb(b, i + 1, 5) {
        None => None,
        Some((pc, j)) => {
            if pc > (b.len() - j) as u64 {
                return None;
            }
            let jp = j + pc as usize;
            match parse_leb(b, jp, 5) {
                None => None,
                Some((rc, j2)) => {
                    if rc > (b.len() - j2) as u64 {
                        return None;
                    }
                    Some(j2 + rc as usize)
                },
            }
        },
    }
}

/// Find function type number `t` within the type section.
fn functype_at(b: &[u8], start: usize, e: usize, t: u64) -> (r: Option<(usize, usize)>)
    requires
        start <= b@.len(),
        e <= b@.len(),
    ensures
        spec_functype_at(b@, start as int, e as int, t as nat) == match r {
            None => None::<(int, int)>,
            Some((a, c)) => Some((a as int, c as int)),
        },
        r matches Some((a, c)) ==> a <= c <= b@.len(),
{
    let mut cur = start;
    let mut rem = t;
    while 0 < rem
        invariant
            cur <= b@.len(),
            e <= b@.len(),
            spec_functype_at(b@, start as int, e as int, t as nat) == spec_functype_at(
                b@,
                cur as int,
                e as int,
                rem as nat,
            ),
        decreases rem,
    {
        match skip_functype(b, cur) {
            None => {
                return None;
            },
            Some(j) => {
                if j > e {
                    return None;
                }
                cur = j;
                rem = rem - 1;
            },
        }
    }
    match skip_functype(b, cur) {
        None => None,
        Some(j) => {
            if j > e {
                return None;
            }
            Some((cur, j))
        },
    }
}

/// Read the type index of function-section entry `k`.
fn funcsec_typeidx(b: &[u8], start: usize, e: usize, k: u64) -> (r: Option<u64>)
    requires
        start <= b@.len(),
        e <= b@.len(),
    ensures
        spec_funcsec_typeidx(b@, start as int, e as int, k as nat) == match r {
            None => None::<nat>,
            Some(ti) => Some(ti as nat),
        },
{
    let mut cur = start;
    let mut rem = k;
    while 0 < rem
        invariant
            cur <= b@.len(),
            e <= b@.len(),
            spec_funcsec_typeidx(b@, start as int, e as int, k as nat) == spec_funcsec_typeidx(
                b@,
                cur as int,
                e as int,
                rem as nat,
            ),
        decreases rem,
    {
        match parse_leb(b, cur, 5) {
            None => {
                return None;
            },
            Some((_, j)) => {
                if j > e {
                    return None;
                }
                cur = j;
                rem = rem - 1;
            },
        }
    }
    match parse_leb(b, cur, 5) {
        None => None,
        Some((ti, j)) => {
            if j > e {
                return None;
            }
            Some(ti)
        },
    }
}

/// Does core function `fidx` belong to the module itself and carry exactly
/// the wanted type?
fn func_type_is(b: &[u8], fidx: u64, nimp: u64, want: &[u8]) -> (r: bool)
    requires
        8 <= b@.len(),
    ensures
        r == spec_func_type_is(b@, fidx as int, nimp as int, want@),
{
    if fidx < nimp {
        return false;
    }
    let k = fidx - nimp;
    let (fs, fe) = match find_section(b, 8, 3) {
        None => {
            return false;
        },
        Some(p) => p,
    };
    let (fcnt, fj) = match parse_leb(b, fs, 5) {
        None => {
            return false;
        },
        Some(p) => p,
    };
    if k >= fcnt {
        return false;
    }
    let ti = match funcsec_typeidx(b, fj, fe, k) {
        None => {
            return false;
        },
        Some(p) => p,
    };
    let (ts, te) = match find_section(b, 8, 1) {
        None => {
            return false;
        },
        Some(p) => p,
    };
    let (tcnt, tj) = match parse_leb(b, ts, 5) {
        None => {
            return false;
        },
        Some(p) => p,
    };
    if ti >= tcnt {
        return false;
    }
    let (a, c) = match functype_at(b, tj, te, ti) {
        None => {
            return false;
        },
        Some(p) => p,
    };
    crate::guest::bytes_eq(vstd::slice::slice_subrange(b, a, c), want)
}

/// Walk the export section's entries, looking for a conforming dispatch
/// entry.
fn exports_walk(b: &[u8], start: usize, end: usize, cnt: u64, nimp: u64, want: &[u8]) -> (r: Option<
    bool,
>)
    requires
        8 <= b@.len(),
        start <= end <= b@.len(),
    ensures
        spec_exports_walk(b@, start as int, end as int, cnt as nat, nimp as int, want@) == match r {
            None => None::<bool>,
            Some(found) => Some(found),
        },
{
    let name = entry_name();
    let mut cur = start;
    let mut rem = cnt;
    let mut found = false;
    while rem > 0
        invariant
            start <= cur <= end <= b@.len(),
            8 <= b@.len(),
            name@ == spec_entry_name(),
            spec_exports_walk(b@, start as int, end as int, cnt as nat, nimp as int, want@)
                == match spec_exports_walk(
                b@,
                cur as int,
                end as int,
                rem as nat,
                nimp as int,
                want@,
            ) {
                None => None::<bool>,
                Some(f) => Some(found || f),
            },
        decreases rem,
    {
        let (ns, nj) = match read_name(b, cur) {
            None => {
                return None;
            },
            Some(p) => p,
        };
        if nj >= b.len() || b[nj] > 3 {
            return None;
        }
        let kind = b[nj];
        let (idx, j2) = match parse_leb(b, nj + 1, 5) {
            None => {
                return None;
            },
            Some(p) => p,
        };
        if j2 > end {
            return None;
        }
        let name_hit = crate::guest::bytes_eq(
            vstd::slice::slice_subrange(b, ns, nj),
            name.as_slice(),
        );
        if name_hit && kind == 0 {
            if func_type_is(b, idx, nimp, want) {
                found = true;
            }
        }
        cur = j2;
        rem = rem - 1;
    }
    if cur != end {
        return None;
    }
    Some(found)
}

/// Search the module for a conforming dispatch entry export.
fn module_entry(b: &[u8], want: &[u8]) -> (r: Option<bool>)
    requires
        8 <= b@.len(),
    ensures
        spec_module_entry(b@, want@) == match r {
            None => None::<bool>,
            Some(found) => Some(found),
        },
{
    let nimp = match module_imports(b) {
        None => {
            return None;
        },
        Some((_, fc)) => fc,
    };
    match find_section(b, 8, 7) {
        None => Some(false),
        Some((s, e)) => match parse_leb(b, s, 5) {
            None => None,
            Some((cnt, j)) => {
                if j > e {
                    proof {
                        lemma_exports_walk_in_range(
                            b@,
                            j as int,
                            e as int,
                            cnt as nat,
                            nimp as int,
                            want@,
                        );
                    }
                    return None;
                }
                exports_walk(b, j, e, cnt, nimp, want)
            },
        },
    }
}

/// A walk whose start lies past the section end parses nothing.
proof fn lemma_exports_walk_in_range(
    b: Seq<u8>,
    i: int,
    end: int,
    cnt: nat,
    nimp: int,
    want: Seq<u8>,
)
    requires
        i > end,
    ensures
        spec_exports_walk(b, i, end, cnt, nimp, want) is None,
{
    if cnt != 0 {
        match spec_name(b, i) {
            None => {},
            Some((nm, j)) => {
                lemma_leb_bound(b, i, 5);
                assert(j > i);
                if 0 <= j < b.len() && b[j] <= 3 {
                    lemma_leb_bound(b, j + 1, 5);
                }
            },
        }
    }
}

/// The eight-byte preamble: magic `\0asm`, version 1.
pub open spec fn spec_magic_ok(b: Seq<u8>) -> bool {
    b.len() >= 8 && b[0] == 0 && b[1] == 97 && b[2] == 115 && b[3] == 109
}

pub open spec fn spec_version_ok(b: Seq<u8>) -> bool {
    b.len() >= 8 && b[4] == 1 && b[5] == 0 && b[6] == 0 && b[7] == 0
}

/// A well-formed module container: preamble, then clean section framing.
pub open spec fn spec_container_ok(b: Seq<u8>) -> bool {
    b.len() >= 8 && spec_magic_ok(b) && spec_version_ok(b) && spec_sections_ok(b, 8, 0)
}

/// The payload range of the first section with the given id, scanning the
/// framing from `i`.
pub open spec fn spec_find_section(b: Seq<u8>, i: int, id: u8) -> Option<(int, int)>
    decreases b.len() - i,
{
    if !(0 <= i < b.len()) {
        None
    } else {
        match spec_leb(b, i + 1, 5) {
            None => None,
            Some((size, next)) => if next + size <= b.len() && i < next + size {
                if b[i] == id {
                    Some((next, next + size))
                } else {
                    spec_find_section(b, next + size, id)
                }
            } else {
                None
            },
        }
    }
}

/// A length-prefixed name: its bytes and the index after them.
pub open spec fn spec_name(b: Seq<u8>, i: int) -> Option<(Seq<u8>, int)> {
    match spec_leb(b, i, 5) {
        None => None,
        Some((n, j)) => if j + n <= b.len() {
            Some((b.subrange(j, j + n), j + n))
        } else {
            None
        },
    }
}

/// The index after a limits encoding at `i`: a flag byte, then one or two
/// bounds.
pub open spec fn spec_skip_limits(b: Seq<u8>, i: int) -> Option<int> {
    if !(0 <= i < b.len()) {
        None
    } else if b[i] == 0 {
        match spec_leb(b, i + 1, 5) {
            None => None,
            Some((_, j)) => Some(j),
        }
    } else if b[i] == 1 {
        match spec_leb(b, i + 1, 5) {
            None => None,
            Some((_, j)) => match spec_leb(b, j, 5) {
                None => None,
                Some((_, j2)) => Some(j2),
            },
        }
    } else {
        None
    }
}

/// The index after an import description at `i`: a kind tag, then the
/// kind's own payload — a type index for a function, element type and
/// limits for a table, limits for a memory, value type and mutability for a
/// global.
pub open spec fn spec_skip_importdesc(b: Seq<u8>, i: int) -> Option<int> {
    if !(0 <= i < b.len()) {
        None
    } else if b[i] == 0 {
        match spec_leb(b, i + 1, 5) {
            None => None,
            Some((_, j)) => Some(j),
        }
    } else if b[i] == 1 {
        if i + 2 <= b.len() {
            spec_skip_limits(b, i + 2)
        } else {
            None
        }
    } else if b[i] == 2 {
        spec_skip_limits(b, i + 1)
    } else if b[i] == 3 {
        if i + 3 <= b.len() {
            Some(i + 3)
        } else {
            None
        }
    } else {
        None
    }
}

/// One import entry at `i`: the imported module's name, whether the import
/// is a function, and the index after the entry.
pub open spec fn spec_import_entry(b: Seq<u8>, i: int) -> Option<(Seq<u8>, bool, int)> {
    match spec_name(b, i) {
        None => None,
        Some((modname, j)) => match spec_name(b, j) {
            None => None,
            Some((_, j2)) => if 0 <= j2 < b.len() {
                match spec_skip_importdesc(b, j2) {
                    None => None,
                    Some(j3) => Some((modname, b[j2] == 0, j3)),
                }
            } else {
                None
            },
        },
    }
}

/// The one import family this host offers: the scoped system interface of
/// `CapabilitySet` — standard streams under the grant, nothing ambient.  A
/// guest importing any other module asks for a capability the host does not
/// declare.
pub open spec fn spec_wasi_module_name() -> Seq<u8> {
    seq![
        119u8, 97u8, 115u8, 105u8, 95u8, 115u8, 110u8, 97u8, 112u8, 115u8, 104u8, 111u8, 116u8,
        95u8, 112u8, 114u8, 101u8, 118u8, 105u8, 101u8, 119u8, 49u8,
    ]
}

/// Walk `cnt` import entries from `i`, which must end exactly at `end`:
/// whether every entry imports an offered module, and how many entries are
/// functions (they come first in the module's function index space).
pub open spec fn spec_imports_walk(b: Seq<u8>, i: int, end: int, cnt: nat) -> Option<(bool, int)>
    decreases cnt,
{
    if cnt == 0 {
        if i == end {
            Some((true, 0))
        } else {
            None
        }
    } else {
        match spec_import_entry(b, i) {
            None => None,
            Some((modname, isfunc, j)) => if i < j <= end {
                match spec_imports_walk(b, j, end, (cnt - 1) as nat) {
                    None => None,
                    Some((ok, fc)) => Some(
                        (
                            ok && modname == spec_wasi_module_name(),
                            fc + if isfunc {
                                1int
                            } else {
                                0int
                            },
                        ),
                    ),
                }
            } else {
                None
            },
        }
    }
}

/// The module's import section, parsed: whether every import stays inside
/// the offered capability set, and the number of imported functions.  A
/// module without an import section imports nothing.
pub open spec fn spec_module_imports(b: Seq<u8>) -> Option<(bool, int)> {
    match spec_find_section(b, 8, 2) {
        None => Some((true, 0)),
        Some((s, e)) => match spec_leb(b, s, 5) {
            None => None,
            Some((cnt, j)) => spec_imports_walk(b, j, e, cnt),
        },
    }
}

/// The index after a function type at `i`: the `0x60` tag, a vector of
/// parameter value types, a vector of result value types.
pub open spec fn spec_skip_functype(b: Seq<u8>, i: int) -> Option<int> {
    if !(0 <= i < b.len()) || b[i] != 0x60 {
        None
    } else {
        match spec_leb(b, i + 1, 5) {
            None => None,
            Some((pc, j)) => if j + pc <= b.len() {
                match spec_leb(b, j + pc, 5) {
                    None => None,
                    Some((rc, j2)) => if j2 + rc <= b.len() {
                        Some(j2 + rc)
                    } else {
                        None
                    },
                }
            } else {
                None
            },
        }
    }
}

/// The byte range of function type number `t`, counting from `i` within a
/// type section that ends at `e`.
pub open spec fn spec_functype_at(b: Seq<u8>, i: int, e: int, t: nat) -> Option<(int, int)>
    decreases t,
{
    match spec_skip_functype(b, i) {
        None => None,
        Some(j) => if j <= e {
            if t == 0 {
                Some((i, j))
            } else {
                spec_functype_at(b, j, e, (t - 1) as nat)
            }
        } else {
            None
        },
    }
}

/// The type index held by function-section entry `k`, counting from `i`
/// within a function section that ends at `e`.
pub open spec fn spec_funcsec_typeidx(b: Seq<u8>, i: int, e: int, k: nat) -> Option<nat>
    decreases k,
{
    match spec_leb(b, i, 5) {
        None => None,
        Some((ti, j)) => if j <= e {
            if k == 0 {
                Some(ti)
            } else {
                spec_funcsec_typeidx(b, j, e, (k - 1) as nat)
            }
        } else {
            None
        },
    }
}

/// The core type a dispatch entry of the given wire signature compiles to:
/// every string or byte-buffer parameter crosses as an `(offset, length)`
/// pair of 32-bit words, and the composite result comes back as one 32-bit
/// pointer into the return area.
pub open spec fn spec_lowered_functype(params: Seq<WireType>, ret: WireType) -> Seq<u8>
    recommends
        params.len() <= 63,
{
    seq![0x60u8, (2 * params.len()) as u8] + Seq::new(2 * params.len(), |k: int| 0x7Fu8) + seq![
        1u8,
        0x7Fu8,
    ]
}

/// Whether the function with core index `fidx` is one of the module's own
/// (not an imported one re-exported) and has exactly the wanted type:
/// resolved through the function section into the type section, past the
/// `nimp` imported functions that open the index space.
pub open spec fn spec_func_type_is(b: Seq<u8>, fidx: int, nimp: int, want: Seq<u8>) -> bool {
    if fidx < nimp {
        false
    } else {
        let k = fidx - nimp;
        match spec_find_section(b, 8, 3) {
            None => false,
            Some((fs, fe)) => match spec_leb(b, fs, 5) {
                None => false,
                Some((fcnt, fj)) => if k < fcnt {
                    match spec_funcsec_typeidx(b, fj, fe, k as nat) {
                        None => false,
                        Some(ti) => match spec_find_section(b, 8, 1) {
                            None => false,
                            Some((ts, te)) => match spec_leb(b, ts, 5) {
                                None => false,
                                Some((tcnt, tj)) => if ti < tcnt {
                                    match spec_functype_at(b, tj, te, ti) {
                                        None => false,
                                        Some((a, c)) => b.subrange(a, c) == want,
                                    }
                                } else {
                                    false
                                },
                            },
                        },
                    }
                } else {
                    false
                },
            },
        }
    }
}

/// The name the dispatch entry point is exported under.
pub open spec fn spec_entry_name() -> Seq<u8> {
    seq![104u8, 97u8, 110u8, 100u8, 108u8, 101u8, 45u8, 106u8, 115u8, 111u8, 110u8]
}

/// Walk `cnt` export entries from `i`, which must end exactly at `end`:
/// does one of them export the dispatch entry — right name, a function, and
/// the wanted core type?
pub open spec fn spec_exports_walk(
    b: Seq<u8>,
    i: int,
    end: int,
    cnt: nat,
    nimp: int,
    want: Seq<u8>,
) -> Option<bool>
    decreases cnt,
{
    if cnt == 0 {
        if i == end {
            Some(false)
        } else {
            None
        }
    } else {
        match spec_name(b, i) {
            None => None,
            Some((nm, j)) => if 0 <= j < b.len() && b[j] <= 3 {
                match spec_leb(b, j + 1, 5) {
                    None => None,
                    Some((idx, j2)) => if j2 <= end {
                        match spec_exports_walk(b, j2, end, (cnt - 1) as nat, nimp, want) {
                            None => None,
                            Some(found) => Some(
                                found || (nm == spec_entry_name() && b[j] == 0 && spec_func_type_is(
                                    b,
                                    idx as int,
                                    nimp,
                                    want,
                                )),
                            ),
                        }
                    } else {
                        None
                    },
                }
            } else {
                None
            },
        }
    }
}

/// The module's export section, searched for a conforming dispatch entry.
/// `None` is an unparseable section; `Some(false)` a parseable module that
/// exposes no conforming entry — including one with no export section at
/// all.
pub open spec fn spec_module_entry(b: Seq<u8>, want: Seq<u8>) -> Option<bool> {
    match spec_module_imports(b) {
        None => None,
        Some((_, nimp)) => match spec_find_section(b, 8, 7) {
            None => Some(false),
            Some((s, e)) => match spec_leb(b, s, 5) {
                None => None,
                Some((cnt, j)) => spec_exports_walk(b, j, e, cnt, nimp, want),
            },
        },
    }
}

/// The core type the expected dispatch entry compiles to.
pub open spec fn spec_expected_core_type() -> Seq<u8> {
    spec_lowered_functype(seq![WireType::Str, WireType::Bytes], WireType::Bytes)
}

/// Well-formed guest bytes: a clean container whose import and export
/// sections, where present, parse.
pub open spec fn spec_module_wf(b: Seq<u8>) -> bool {
    &&& spec_container_ok(b)
    &&& spec_module_imports(b) is Some
    &&& spec_module_entry(b, spec_expected_core_type()) is Some
}

/// Every import the module declares stays inside the offered capability
/// set.
pub open spec fn spec_imports_allowed(b: Seq<u8>) -> bool {
    spec_module_imports(b) matches Some((ok, _)) && ok
}

/// The module exposes a conforming dispatch entry.
pub open spec fn spec_entry_found(b: Seq<u8>) -> bool {
    spec_module_entry(b, spec_expected_core_type()) == Some(true)
}

/// A module the factory accepts: well formed, imports within the grant, and
/// a dispatch entry present.
pub open spec fn spec_module_ok(b: Seq<u8>) -> bool {
    spec_module_wf(b) && spec_imports_allowed(b) && spec_entry_found(b)
}

/// The immutable compiled artifact: produced once from guest bytes, shared
/// by reference across all later calls, owner of no per-call state.
#[derive(Debug)]
pub struct CompiledModule {
    pub bytes: Vec<u8>,
}

impl CompiledModule {
    /// The artifact holds validated bytes: a clean container with parseable
    /// import and export sections.
    pub open spec fn wf(&self) -> bool {
        spec_module_wf(self.bytes@)
    }
}

/// Validate guest module bytes and produce the immutable artifact.  Each
/// malformation is reported as its own compile error; well-formed bytes
/// always compile.
pub fn compile(bytes: Vec<u8>) -> (r: Result<CompiledModule, CompileError>)
    ensures
        r is Ok <==> spec_module_wf(bytes@),
        r matches Ok(m) ==> m.bytes@ == bytes@ && m.wf(),
        r is Err ==> r == Err::<CompiledModule, CompileError>(spec_compile_err(bytes@)),
{
    if bytes.len() < 8 {
        return Err(CompileError::TooSmall);
    }
    if !(bytes[0] == 0 && bytes[1] == 97 && bytes[2] == 115 && bytes[3] == 109) {
        return Err(CompileError::BadMagic);
    }
    if !(bytes[4] == 1 && bytes[5] == 0 && bytes[6] == 0 && bytes[7] == 0) {
        return Err(CompileError::BadVersion);
    }
    if !check_sections(bytes.as_slice(), 8) {
        return Err(CompileError::BadSection);
    }
    match module_imports(bytes.as_slice()) {
        None => {
            return Err(CompileError::BadImportSection);
        },
        Some(_) => {},
    }
    let sig = guest_entry_sig();
    let want = lowered_functype(&sig);
    proof {
        assert(want@ == spec_expected_core_type());
    }
    match module_entry(bytes.as_slice(), want.as_slice()) {
        None => {
            return Err(CompileError::BadExportSection);
        },
        Some(_) => {},
    }
    Ok(CompiledModule { bytes })
}

/// The declared set of host resources a guest may import: scoped standard
/// streams, nothing else — no ambient file system or network reach.  All of
/// it lives in the one system-interface module of `spec_wasi_module_name`;
/// an import is within the set exactly when it names that module.
#[derive(PartialEq, Eq, Structural, Clone, Copy, Debug)]
pub struct CapabilitySet {
    pub stdout: bool,
    pub stderr: bool,
}

/// The capability grant every handler runs under: the guest may write to the
/// host's standard output and standard error, and nothing more.
pub fn default_wasi() -> (c: CapabilitySet)
    ensures
        c.stdout,
        c.stderr,
{
    CapabilitySet { stdout: true, stderr: true }
}

/// Host-side execution settings.
#[derive(PartialEq, Eq, Structural, Clone, Copy, Debug)]
pub struct HostConfig {
    pub debug_info: bool,
    pub backtrace_details: bool,
}

/// The configuration every factory is built with: debug information and
/// detailed backtraces on.
pub fn default_config() -> (c: HostConfig)
    ensures
        c.debug_info,
        c.backtrace_details,
{
    HostConfig { debug_info: true, backtrace_details: true }
}

/// The value-shape tag of one slot in the dispatch entry's signature.
#[derive(PartialEq, Eq, Structural, Clone, Copy, Debug)]
pub enum WireType {
    /// A string: an `(offset, length)` pair of UTF-8 bytes.
    Str,
    /// A raw byte buffer: an `(offset, length)` pair.
    Bytes,
}

/// The signature of a dispatch entry export: parameter tags in order, and
/// the result tag.
pub struct EntrySig {
    pub params: Vec<WireType>,
    pub ret: WireType,
}

/// The signature the host expects of the dispatch entry point:
/// `(name: string, payload: bytes) -> bytes`.
pub open spec fn spec_expected_entry(params: Seq<WireType>, ret: WireType) -> bool {
    params == seq![WireType::Str, WireType::Bytes] && ret == WireType::Bytes
}

/// The signature the built-in dispatch table exports.
pub fn guest_entry_sig() -> (s: EntrySig)
    ensures
        spec_expected_entry(s.params@, s.ret),
{
    let mut params: Vec<WireType> = Vec::new();
    params.push(WireType::Str);
    params.push(WireType::Bytes);
    proof {
        assert(params@ =~= seq![WireType::Str, WireType::Bytes]);
    }
    EntrySig { params, ret: WireType::Bytes }
}

/// The core type an entry of the given wire signature compiles to: two
/// 32-bit words per string or byte-buffer parameter, one 32-bit return-area
/// pointer for the result.
pub fn lowered_functype(sig: &EntrySig) -> (v: Vec<u8>)
    requires
        sig.params@.len() <= 63,
    ensures
        v@ == spec_lowered_functype(sig.params@, sig.ret),
{
    let n = sig.params.len();
    let mut v: Vec<u8> = Vec::new();
    v.push(0x60);
    v.push((2 * n) as u8);
    proof {
        assert(v@ =~= seq![0x60u8, (2 * n as int) as u8] + Seq::new(0, |t: int| 0x7Fu8));
    }
    let mut k: usize = 0;
    while k < 2 * n
        invariant
            k <= 2 * n,
            n == sig.params@.len(),
            n <= 63,
            v@ == seq![0x60u8, (2 * n as int) as u8] + Seq::new(k as nat, |t: int| 0x7Fu8),
        decreases 2 * n - k,
    {
        v.push(0x7F);
        proof {
            assert(v@ =~= seq![0x60u8, (2 * n as int) as u8] + Seq::new(
                (k + 1) as nat,
                |t: int| 0x7Fu8,
            ));
        }
        k = k + 1;
    }
    v.push(1);
    v.push(0x7F);
    proof {
        assert(v@ =~= spec_lowered_functype(sig.params@, sig.ret));
    }
    v
}

/// The per-call isolation boundary: a fresh linear memory and fresh imported
/// capability state, owned by exactly one in-flight call and discarded with
/// it.  Nothing in one context is visible to any other.
pub struct ExecutionContext {
    pub mem: Mem,
    pub caps: CapabilitySet,
}

/// Allocate a fresh execution context for one call: empty linear memory and
/// the module's capability grant.  Cheap relative to compilation; meant to
/// be made per call, never cached.  Allocation failure would be an
/// `InstantiateError`; this host's contexts start empty, so instantiation
/// always succeeds.
pub fn instantiate(module: &CompiledModule, caps: &CapabilitySet) -> (r: Result<
    ExecutionContext,
    InstantiateError,
>)
    ensures
        r matches Ok(ctx) ==> ctx.mem@ == Seq::<u8>::empty() && ctx.caps == *caps,
        r is Ok,
{
    Ok(ExecutionContext { mem: Mem::new(), caps: *caps })
}

/// Everything shared across calls: the compiled module, the capability
/// grant, and the host configuration.  All of it is read-only after
/// construction, so it may be shared freely.
pub struct HandleFactory {
    pub module: CompiledModule,
    pub caps: CapabilitySet,
    pub config: HostConfig,
}

/// A live, callable instance for one call at a time: the execution context
/// the dispatch entry point runs in.
pub struct Handler {
    pub ctx: ExecutionContext,
}

impl HandleFactory {
    /// Build the factory from guest module bytes: compile them into the
    /// immutable artifact, refuse any import outside the offered capability
    /// set, and fail fast — before any call — unless the guest exposes a
    /// dispatch entry of the expected signature.
    pub fn new(module_bytes: Vec<u8>) -> (r: Result<HandleFactory, BuildError>)
        ensures
            r is Ok <==> spec_module_ok(module_bytes@),
            r matches Ok(f) ==> f.module.bytes@ == module_bytes@ && f.module.wf() && f.caps.stdout
                && f.caps.stderr && f.config.debug_info && f.config.backtrace_details,
            r is Err ==> r == Err::<HandleFactory, BuildError>(spec_build_err(module_bytes@)),
    {
        let config = default_config();
        let module = match compile(module_bytes) {
            Err(e) => {
                return Err(BuildError::Compile(e));
            },
            Ok(m) => m,
        };
        let caps = default_wasi();
        // link: every declared import must lie inside the offered grant
        let imports_ok = match module_imports(module.bytes.as_slice()) {
            None => {
                proof {
                    assert(false);
                }
                return Err(BuildError::Compile(CompileError::BadImportSection));
            },
            Some((ok, _)) => ok,
        };
        if !imports_ok {
            return Err(BuildError::Link(LinkError::ImportOutsideCapabilitySet));
        }
        // link: the guest must expose the dispatch entry, checked before any call
        let sig = guest_entry_sig();
        let want = lowered_functype(&sig);
        proof {
            assert(want@ == spec_expected_core_type());
        }
        let found = match module_entry(module.bytes.as_slice(), want.as_slice()) {
            None => {
                proof {
                    assert(false);
                }
                return Err(BuildError::Compile(CompileError::BadExportSection));
            },
            Some(f) => f,
        };
        if !found {
            return Err(BuildError::Link(LinkError::Interface(InterfaceMismatchError {  })));
        }
        Ok(HandleFactory { module, caps, config })
    }

    /// Make a handler for one call: a fresh execution context bound to the
    /// shared module.  State in it is invisible to every other handler.
    pub fn make_handler(&self) -> (r: Result<Handler, InstantiateError>)
        ensures
            r matches Ok(h) ==> h.ctx.mem@ == Seq::<u8>::empty() && h.ctx.caps == self.caps,
            r is Ok,
    {
        let ctx = match instantiate(&self.module, &self.caps) {
            Err(e) => {
                return Err(e);
            },
            Ok(c) => c,
        };
        Ok(Handler { ctx })
    }
}

/// What one call returns, as a function of the call's own inputs alone —
/// the name's UTF-8 bytes and the payload bytes.  A guest trap surfaces as
/// `CallError::Trap`; a call whose arguments or result cannot fit the
/// 32-bit address space of one context's linear memory fails like a guest
/// abort.  No state of the handler or of earlier calls appears here: that
/// is the isolation and determinism guarantee in one line.
#[verifier::opaque]
pub open spec fn spec_handle_json(nb: Seq<u8>, j: Seq<u8>) -> Result<Seq<u8>, CallError> {
    if nb.len() + j.len() > u32::MAX {
        Err(CallError::Trap(TrapError::GuestPanic))
    } else {
        match spec_guest_handle(nb, j) {
            Err(t) => Err(CallError::Trap(t)),
            Ok(out) => if nb.len() + j.len() + out.len() + 8 > u32::MAX {
                Err(CallError::Trap(TrapError::GuestPanic))
            } else {
                Ok(out)
            },
        }
    }
}

/// The linear memory a call leaves behind: again a function of the call's
/// own inputs alone — the encoded arguments, and on success the encoded
/// result and its return area.
pub open spec fn spec_call_mem(nb: Seq<u8>, j: Seq<u8>) -> Seq<u8> {
    if nb.len() + j.len() > u32::MAX {
        Seq::empty()
    } else {
        match spec_guest_handle(nb, j) {
            Err(_) => nb + j,
            Ok(out) => if nb.len() + j.len() + out.len() + 8 > u32::MAX {
                nb + j
            } else {
                nb + j + out + spec_le32(nb.len() as int + j.len() as int) + spec_le32(
                    out.len() as int,
                )
            },
        }
    }
}

impl Handler {
    /// One dispatch call: write the name and payload into a fresh execution
    /// context's linear memory, let the dispatch entry point read them back
    /// and run, write its encoded result through the return area, read the
    /// result bytes out, and defensively re-parse them before handing them
    /// over.  The result is a function of `(name, payload)` alone, and the
    /// defensive check provably never fires.
    #[verifier::rlimit(100)]
    pub fn handle_json(&mut self, name: String, json: Vec<u8>) -> (r: Result<Vec<u8>, CallError>)
        ensures
            ({
                let nb = vstd::utf8::encode_utf8(name@);
                match r {
                    Ok(b) => spec_handle_json(nb, json@) == Ok::<Seq<u8>, CallError>(b@),
                    Err(e) => spec_handle_json(nb, json@) == Err::<Seq<u8>, CallError>(e),
                }
            }),
            final(self).ctx.mem@ == spec_call_mem(vstd::utf8::encode_utf8(name@), json@),
            !(r matches Err(CallError::Payload(_))),
    {
        proof {
            reveal(spec_handle_json);
        }
        let ghost nbs = vstd::utf8::encode_utf8(name@);
        let nb = name.as_str().as_bytes_vec();
        assert(nb@ == nbs);
        let mut mem = Mem::new();
        let u32max = u32::MAX as usize;
        if nb.len() > u32max || json.len() > u32max - nb.len() {
            self.ctx = ExecutionContext { mem, caps: self.ctx.caps };
            return Err(CallError::Trap(TrapError::GuestPanic));
        }
        let (noff, nlen) = encode_string(&mut mem, nb.as_slice());
        let (poff, plen) = encode_string(&mut mem, json.as_slice());
        proof {
            assert(mem@ == nbs + json@);
            assert(mem@.subrange(noff as int, noff + nlen) =~= nbs);
            assert(mem@.subrange(poff as int, poff + plen) =~= json@);
        }
        // the guest reads its arguments out of its linear memory
        let gname = decode_string(&mem, noff, nlen);
        let gjson = decode_string(&mem, poff, plen);
        let out = match guest_handle_json(gname.as_slice(), gjson.as_slice()) {
            Err(t) => {
                proof {
                    assert(mem@ =~= spec_call_mem(nbs, json@));
                }
                self.ctx = ExecutionContext { mem, caps: self.ctx.caps };
                return Err(CallError::Trap(t));
            },
            Ok(out) => out,
        };
        let used = mem.size();
        if used > u32max - 8 || out.len() > u32max - 8 - used {
            proof {
                assert(mem@ =~= spec_call_mem(nbs, json@));
            }
            self.ctx = ExecutionContext { mem, caps: self.ctx.caps };
            return Err(CallError::Trap(TrapError::GuestPanic));
        }
        // the guest writes its result and hands a pointer to the return area
        let (ooff, olen) = encode_string(&mut mem, out.as_slice());
        let ra = encode_ret_area(&mut mem, ooff, olen);
        // the host reads the pair back and copies the result out
        let (roff, rlen) = read_ret_area(&mem, ra);
        assert(roff == ooff && rlen == olen);
        proof {
            assert(mem@ == nbs + json@ + out@ + spec_le32(ooff as int) + spec_le32(olen as int));
            assert(mem@.subrange(ooff as int, ooff + olen) =~= out@);
        }
        let res = decode_string(&mem, roff, rlen);
        assert(res@ == out@);
        // defensive check: the result bytes must parse as encoded output
        match decode_payload(res.as_slice()) {
            None => {
                proof {
                    lemma_guest_output_parses(nbs, json@);
                    assert(false);
                }
                self.ctx = ExecutionContext { mem, caps: self.ctx.caps };
                Err(CallError::Payload(PayloadError {}))
            },
            Some(_) => {
                proof {
                    assert(mem@ =~= spec_call_mem(nbs, json@));
                }
                self.ctx = ExecutionContext { mem, caps: self.ctx.caps };
                Ok(res)
            },
        }
    }
}

/// Determinism: two calls that were given identical `(name, payload)`
/// inputs returned byte-identical results — each call's contract ties its
/// result to `spec_handle_json` of the call's own inputs, and to nothing
/// else.
pub proof fn lemma_handle_json_deterministic(
    nb: Seq<u8>,
    j: Seq<u8>,
    r1: Result<Seq<u8>, CallError>,
    r2: Result<Seq<u8>, CallError>,
)
    requires
        r1 == spec_handle_json(nb, j),
        r2 == spec_handle_json(nb, j),
    ensures
        r1 == r2,
{
}

/// Isolation: a call's result and the linear memory its context holds
/// afterwards are functions of that call's own inputs, so no call observes
/// another call's guest-heap contents — whatever ran on the same handler or
/// on any other handler before, the outcome is the same.
pub proof fn lemma_calls_isolated(
    nb: Seq<u8>,
    j: Seq<u8>,
    r1: Result<Seq<u8>, CallError>,
    m1: Seq<u8>,
    r2: Result<Seq<u8>, CallError>,
    m2: Seq<u8>,
)
    requires
        r1 == spec_handle_json(nb, j),
        m1 == spec_call_mem(nb, j),
        r2 == spec_handle_json(nb, j),
        m2 == spec_call_mem(nb, j),
    ensures
        r1 == r2,
        m1 == m2,
{
}

/// Unknown-name dispatch at the host boundary: a name that matches no
/// export yields a trap error on every payload, never a success.
pub proof fn lemma_unknown_name_call_traps(nb: Seq<u8>, j: Seq<u8>)
    requires
        nb != crate::guest::spec_power_name(),
        nb != crate::guest::spec_split_name(),
    ensures
        spec_handle_json(nb, j) matches Err(CallError::Trap(_)),
        nb.len() + j.len() <= u32::MAX ==> spec_handle_json(nb, j) == Err::<Seq<u8>, CallError>(
            CallError::Trap(TrapError::UnknownName),
        ),
{
    reveal(spec_handle_json);
    crate::guest::lemma_unknown_name_traps(nb, j);
}

/// Why a smoke run failed.
#[derive(PartialEq, Eq, Structural, Clone, Copy, Debug)]
pub enum RunError {
    Build(BuildError),
    Instantiate(InstantiateError),
    Call(CallError),
}

/// The compile error malformed guest bytes are refused with.
pub open spec fn spec_compile_err(b: Seq<u8>) -> CompileError {
    if b.len() < 8 {
        CompileError::TooSmall
    } else if !spec_magic_ok(b) {
        CompileError::BadMagic
    } else if !spec_version_ok(b) {
        CompileError::BadVersion
    } else if !spec_sections_ok(b, 8, 0) {
        CompileError::BadSection
    } else if spec_module_imports(b) is None {
        CompileError::BadImportSection
    } else {
        CompileError::BadExportSection
    }
}

/// The build error a refused module is refused with.
pub open spec fn spec_build_err(b: Seq<u8>) -> BuildError {
    if !spec_module_wf(b) {
        BuildError::Compile(spec_compile_err(b))
    } else if !spec_imports_allowed(b) {
        BuildError::Link(LinkError::ImportOutsideCapabilitySet)
    } else {
        BuildError::Link(LinkError::Interface(InterfaceMismatchError {  }))
    }
}

/// Smoke-run a guest module: build the factory, make one handler, and issue
/// one probe call, `("hello", "bob")`.  No export of the dispatch table is
/// named `hello`, so on every module the factory accepts the probe traps
/// with an unknown dispatch name; a refused module surfaces its build
/// error.
pub fn run(module_bytes: Vec<u8>) -> (r: Result<(), RunError>)
    ensures
        !spec_module_ok(module_bytes@) ==> r == Err::<(), RunError>(
            RunError::Build(spec_build_err(module_bytes@)),
        ),
        spec_module_ok(module_bytes@) ==> r == Err::<(), RunError>(
            RunError::Call(CallError::Trap(TrapError::UnknownName)),
        ),
{
    let factory = match HandleFactory::new(module_bytes) {
        Err(e) => {
            return Err(RunError::Build(e));
        },
        Ok(f) => f,
    };
    let mut handler = match factory.make_handler() {
        Err(e) => {
            return Err(RunError::Instantiate(e));
        },
        Ok(h) => h,
    };
    let name = String::from_str("hello");
    let mut payload: Vec<u8> = Vec::new();
    payload.push(98);
    payload.push(111);
    payload.push(98);
    proof {
        reveal(spec_handle_json);
        reveal(spec_guest_handle);
        reveal_strlit("hello");
        assert(vstd::utf8::is_ascii_chars(name@));
        vstd::utf8::is_ascii_chars_encode_utf8(name@);
        assert(vstd::utf8::encode_utf8(name@).len() == 5);
        assert(crate::guest::spec_power_name().len() == 8);
        assert(crate::guest::spec_split_name().len() == 9);
    }
    match handler.handle_json(name, payload) {
        Err(e) => Err(RunError::Call(e)),
        Ok(_) => Ok(()),
    }
}

} // verus!
