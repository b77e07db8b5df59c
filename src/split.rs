//! Chooses the smallest number of parts whose framed lines fit a QR symbol, and
//! builds one symbol per part.
use vstd::prelude::*;
use crate::error::Error;
use crate::frame::{frame_line, frame_spec, MAX_PARTS};

verus! {

/// QR error-correction level.
#[derive(Clone, Copy, Debug, PartialEq, Eq, Structural)]
pub enum EcLevel {
    Low,
    Medium,
    Quartile,
    High,
}

/// Why a QR symbol could not be built.
#[derive(Clone, Copy, Debug, PartialEq, Eq, Structural)]
pub enum SymbolFailure {
    /// The data exceeds the capacity of the largest symbol at this level.
    TooLong,
    /// Any other refusal.
    Other,
}

/// A QR module matrix: `width * width` modules, row by row, `true` for dark.
pub struct QrMatrix {
    pub width: usize,
    pub modules: Vec<bool>,
}

/// The QR symbol (width and modules) that encodes `data` at `level`.
pub uninterp spec fn qr_symbol(data: Seq<u8>, level: EcLevel) -> Result<(nat, Seq<bool>), SymbolFailure>;

/// Relies on `qr_code::QrCode::with_error_correction_level`, `width` and `to_vec`:
/// the symbol depends on data and level alone, is of a normal version (21 to 177
/// modules wide) and has `width * width` modules.
#[verifier::external_body]
fn build_symbol(data: &[u8], level: EcLevel) -> (r: Result<QrMatrix, SymbolFailure>)
    ensures
        match r {
            Ok(m) => qr_symbol(data@, level) == Ok::<(nat, Seq<bool>), SymbolFailure>((m.width as nat, m.modules@))
                && 21 <= m.width <= 177 && m.modules@.len() == m.width * m.width,
            Err(f) => qr_symbol(data@, level) == Err::<(nat, Seq<bool>), SymbolFailure>(f),
        },
{
    let l = match level {
        EcLevel::Low => qr_code::EcLevel::L,
        EcLevel::Medium => qr_code::EcLevel::M,
        EcLevel::Quartile => qr_code::EcLevel::Q,
        EcLevel::High => qr_code::EcLevel::H,
    };
    match qr_code::QrCode::with_error_correction_level(data, l) {
        Ok(q) => Ok(QrMatrix { width: q.width(), modules: q.to_vec() }),
        Err(qr_code::types::QrError::DataTooLong) => Err(SymbolFailure::TooLong),
        Err(_) => Err(SymbolFailure::Other),
    }
}

/// One part of an encoded message: its framed line and its symbol.
pub struct EncodedPart {
    pub line: Vec<u8>,
    pub symbol: QrMatrix,
}

/// Length of every part but possibly the last: `ceil(total / n)`.
pub open spec fn part_len(total: nat, n: nat) -> nat {
    if n == 0 { 0 } else { total / n + (if total % n != 0 { 1nat } else { 0nat }) }
}

pub open spec fn min_nat(a: nat, b: nat) -> nat {
    if a <= b { a } else { b }
}

/// Part `k` of `e` split into `n` parts.
pub open spec fn part_slice(e: Seq<u8>, n: nat, k: nat) -> Seq<u8> {
    let l = part_len(e.len(), n);
    e.subrange(min_nat(k * l, e.len()) as int, min_nat((k + 1) * l, e.len()) as int)
}

/// The framed line of part `k` of `n`.
pub open spec fn part_line(e: Seq<u8>, n: nat, k: nat) -> Seq<u8> {
    frame_spec(part_slice(e, n, k), k, n)
}

/// The part count the search settles on, trying `m, m + 1, ..., 16` in turn.
pub open spec fn search_spec(e: Seq<u8>, level: EcLevel, m: nat) -> Result<nat, Error>
    decreases 17 - m,
{
    if m == 0 || m > 16 {
        Err(Error::Usage)
    } else {
        match qr_symbol(part_line(e, m, 0), level) {
            Ok(_) => Ok(m),
            Err(SymbolFailure::TooLong) => search_spec(e, level, m + 1),
            Err(SymbolFailure::Other) => Err(Error::Symbol),
        }
    }
}

/// Every part of an `n`-way split has a symbol.
pub open spec fn all_parts_build(e: Seq<u8>, level: EcLevel, n: nat) -> bool {
    forall|k: nat| k < n ==> (#[trigger] qr_symbol(part_line(e, n, k), level)) is Ok
}

/// `parts` is the `n`-way split of `e`, each with its symbol.
pub open spec fn parts_of(parts: Seq<EncodedPart>, e: Seq<u8>, level: EcLevel, n: nat) -> bool {
    parts.len() == n && forall|k: int| 0 <= k < n ==> {
        &&& (#[trigger] parts[k]).line@ == part_line(e, n, k as nat)
        &&& qr_symbol(parts[k].line@, level) == Ok::<(nat, Seq<bool>), SymbolFailure>((parts[k].symbol.width as nat, parts[k].symbol.modules@))
        &&& 21 <= parts[k].symbol.width <= 177
        &&& parts[k].symbol.modules@.len() == parts[k].symbol.width * parts[k].symbol.width
    }
}

/// `min(k * l, len)` without overflow.
fn bound(k: usize, l: usize, len: usize) -> (r: usize)
    ensures
        r as nat == min_nat(k as nat * l as nat, len as nat),
{
    if l == 0 {
        return 0;
    }
    let ghost (ki, li, ni) = (k as int, l as int, len as int);
    proof {
        vstd::arithmetic::div_mod::lemma_fundamental_div_mod(ni, li);
    }
    if k > len / l {
        assert(ki * li > ni) by (nonlinear_arith)
            requires
                ki >= ni / li + 1,
                ni == li * (ni / li) + ni % li,
                ni % li < li,
                li > 0;
        return len;
    }
    assert(ki * li <= ni) by (nonlinear_arith)
        requires
            ki <= ni / li,
            ni == li * (ni / li) + ni % li,
            ni % li >= 0,
            li > 0;
    let p = k * l;
    if p < len { p } else { len }
}

/// The framed line of part `k` of `n`.
fn make_part_line(e: &[u8], n: usize, k: usize) -> (r: Vec<u8>)
    requires
        k < n <= MAX_PARTS,
    ensures
        r@ == part_line(e@, n as nat, k as nat),
{
    let q = e.len() / n;
    proof {
        vstd::arithmetic::div_mod::lemma_fundamental_div_mod(e@.len() as int, n as int);
        let (qi, ni, li) = (q as int, n as int, e@.len() as int);
        assert(li % ni != 0 ==> qi < li) by (nonlinear_arith)
            requires
                li == ni * qi + li % ni,
                0 <= li % ni,
                ni >= 1,
                qi >= 0;
    }
    let l = if e.len() % n != 0 { q + 1 } else { q };
    let a = bound(k, l, e.len());
    let b = bound(k + 1, l, e.len());
    assert(k as nat * l as nat <= (k + 1) as nat * l as nat) by (nonlinear_arith);
    let slice = crate::frame::copy_range(e, a, b);
    frame_line(&slice, k, n)
}

/// `r` is what splitting `e` at `level` gives: the parts of the count the search
/// settles on, or the error it, or a later part, ends in.
pub open spec fn split_result(r: Result<Vec<EncodedPart>, Error>, e: Seq<u8>, level: EcLevel) -> bool {
    match search_spec(e, level, 1) {
        Err(x) => r matches Err(y) && y == x,
        Ok(n) => if all_parts_build(e, level, n) {
            r matches Ok(parts) && parts_of(parts@, e, level, n)
        } else {
            r matches Err(y) && y == Error::Symbol
        },
    }
}

/// Splits `e` into the fewest parts (at most 16) whose framed lines each fit a
/// QR symbol at `level`, with one symbol per part.
pub fn split_parts(e: &[u8], level: EcLevel) -> (r: Result<Vec<EncodedPart>, Error>)
    ensures
        split_result(r, e@, level),
{
    let mut n: usize = 1;
    while n <= MAX_PARTS
        invariant
            1 <= n <= MAX_PARTS + 1,
            search_spec(e@, level, n as nat) == search_spec(e@, level, 1),
        decreases MAX_PARTS + 1 - n,
    {
        let first = make_part_line(e, n, 0);
        match build_symbol(&first, level) {
            Ok(symbol) => {
                assert(search_spec(e@, level, n as nat) == Ok::<nat, Error>(n as nat));
                let mut parts: Vec<EncodedPart> = Vec::new();
                parts.push(EncodedPart { line: first, symbol });
                let mut k: usize = 1;
                while k < n
                    invariant
                        1 <= k <= n <= MAX_PARTS,
                        search_spec(e@, level, 1) == Ok::<nat, Error>(n as nat),
                        parts@.len() == k,
                        forall|j: int| 0 <= j < k ==> {
                            &&& (#[trigger] parts@[j]).line@ == part_line(e@, n as nat, j as nat)
                            &&& qr_symbol(parts@[j].line@, level) == Ok::<(nat, Seq<bool>), SymbolFailure>((parts@[j].symbol.width as nat, parts@[j].symbol.modules@))
                            &&& 21 <= parts@[j].symbol.width <= 177
                            &&& parts@[j].symbol.modules@.len() == parts@[j].symbol.width * parts@[j].symbol.width
                        },
                    decreases n - k,
                {
                    let line = make_part_line(e, n, k);
                    match build_symbol(&line, level) {
                        Ok(symbol) => {
                            parts.push(EncodedPart { line, symbol });
                        },
                        Err(_) => {
                            assert(!all_parts_build(e@, level, n as nat)) by {
                                assert(!(qr_symbol(part_line(e@, n as nat, k as nat), level) is Ok));
                            }
                            return Err(Error::Symbol);
                        },
                    }
                    k += 1;
                }
                assert(all_parts_build(e@, level, n as nat)) by {
                    assert forall|j: nat| j < n implies (#[trigger] qr_symbol(part_line(e@, n as nat, j), level)) is Ok by {
                        assert(parts@[j as int].line@ == part_line(e@, n as nat, j));
                    }
                }
                return Ok(parts);
            },
            Err(SymbolFailure::TooLong) => {},
            Err(SymbolFailure::Other) => {
                return Err(Error::Symbol);
            },
        }
        n += 1;
    }
    Err(Error::Usage)
}

/// The search never settles on more parts than needed: every smaller count is
/// too long for one symbol, and the chosen count fits.
pub proof fn lemma_search_minimal(e: Seq<u8>, level: EcLevel, m: nat)
    requires
        1 <= m,
        search_spec(e, level, m) is Ok,
    ensures
        ({
            let n = search_spec(e, level, m)->Ok_0;
            &&& m <= n <= 16
            &&& qr_symbol(part_line(e, n, 0), level) is Ok
            &&& forall|j: nat| m <= j < n ==> #[trigger] qr_symbol(part_line(e, j, 0), level)
                == Err::<(nat, Seq<bool>), SymbolFailure>(SymbolFailure::TooLong)
        }),
    decreases 17 - m,
{
    if m <= 16 {
        match qr_symbol(part_line(e, m, 0), level) {
            Ok(_) => {},
            Err(SymbolFailure::TooLong) => {
                lemma_search_minimal(e, level, m + 1);
            },
            Err(SymbolFailure::Other) => {},
        }
    }
}

/// The search fails with `Usage` exactly when every count from `m` to 16 is too
/// long for one symbol.
pub proof fn lemma_search_bound(e: Seq<u8>, level: EcLevel, m: nat)
    requires
        1 <= m,
    ensures
        (search_spec(e, level, m) == Err::<nat, Error>(Error::Usage)) <==> (forall|j: nat| m <= j <= 16
            ==> #[trigger] qr_symbol(part_line(e, j, 0), level)
            == Err::<(nat, Seq<bool>), SymbolFailure>(SymbolFailure::TooLong)),
    decreases 17 - m,
{
    if m <= 16 {
        lemma_search_bound(e, level, m + 1);
        if qr_symbol(part_line(e, m, 0), level) != Err::<(nat, Seq<bool>), SymbolFailure>(SymbolFailure::TooLong) {
            assert(!(forall|j: nat| m <= j <= 16 ==> #[trigger] qr_symbol(part_line(e, j, 0), level)
                == Err::<(nat, Seq<bool>), SymbolFailure>(SymbolFailure::TooLong)));
        }
    }
}

} // verus!
