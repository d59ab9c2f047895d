//! The engine facade: a workbook of worksheets, the result cache and the
//! telemetry, behind the operation surface the host calls.
use vstd::prelude::*;
use crate::cache::{
    cache_has, cache_key_spec, cache_lookup, cache_wf, cache_find, lemma_cache_push,
    lemma_cache_some, CacheEntry, FormulaResult, fr_view,
};
use crate::digits::{dec_digits, push_digits};
use crate::eval::{classify_formula, classify_spec, eval_spec, parse_and_evaluate};
use crate::host::{chars_to_string, now_millis};
use crate::metrics::{after_eval, after_hit, tele_wf, PerformanceMetrics, Telemetry};
use crate::sheet::{lookup_cell, opt_view, ws_wf, Worksheet};
use crate::text::{eq_chars, push_all, push_str_chars, str_to_chars};

verus! {

/// Structural size estimates, in bytes, mirroring the footprint of the
/// engine's record types.
pub const ENGINE_BASE_BYTES: u64 = 176;

pub const SHEET_BASE_BYTES: u64 = 80;

pub const CELL_BYTES: u64 = 80;

pub const CACHE_ENTRY_BYTES: u64 = 128;

/// The column letters of a 1-based column number: base 26 over `A`..`Z`.
pub open spec fn col_letters(c: nat) -> Seq<char>
    decreases c,
{
    if c == 0 {
        Seq::empty()
    } else {
        col_letters(((c - 1) / 26) as nat) + seq![((65 + ((c - 1) % 26)) as u8) as char]
    }
}

/// The display address of a cell: column letters then the row number.
pub open spec fn addr_spec(col: u32, row: u32) -> Seq<char> {
    col_letters(col as nat) + dec_digits(row as nat)
}

fn push_col_letters(c: u32, out: &mut Vec<char>)
    ensures
        final(out)@ == old(out)@ + col_letters(c as nat),
    decreases c,
{
    if c == 0 {
        assert(out@ =~= old(out)@ + col_letters(0));
    } else {
        push_col_letters((c - 1) / 26, out);
        out.push((65 + ((c - 1) % 26) as u8) as char);
        assert(out@ =~= old(out)@ + col_letters(c as nat));
    }
}

/// The display address of a cell.
pub fn cell_address(col: u32, row: u32) -> (r: Vec<char>)
    ensures
        r@ == addr_spec(col, row),
{
    let mut out: Vec<char> = Vec::new();
    push_col_letters(col, &mut out);
    push_digits(row as u128, &mut out);
    assert(out@ =~= addr_spec(col, row));
    out
}

/// A rejected request: these errors surface to the caller, and the
/// request changes nothing.
#[derive(Debug)]
pub enum EngineError {
    EmptyFormula,
    FormulaTooLong,
    InvalidRow(u32),
    InvalidColumn(u32),
    EmptySheetName,
    SheetNameTooLong,
    SheetNotFound(Vec<char>),
    DuplicateSheet(Vec<char>),
}

/// The message text of each rejection.
pub open spec fn err_msg_spec(e: EngineError) -> Seq<char> {
    match e {
        EngineError::EmptyFormula => "Formula cannot be empty"@,
        EngineError::FormulaTooLong => "Formula too long (max 8192 characters)"@,
        EngineError::InvalidRow(r) => "Invalid row: "@ + dec_digits(r as nat)
            + " (must be 1-1048576)"@,
        EngineError::InvalidColumn(c) => "Invalid column: "@ + dec_digits(c as nat)
            + " (must be 1-16384)"@,
        EngineError::EmptySheetName => "Sheet name cannot be empty"@,
        EngineError::SheetNameTooLong => "Sheet name too long (max 31 characters)"@,
        EngineError::SheetNotFound(n) => "Sheet '"@ + n@ + "' not found"@,
        EngineError::DuplicateSheet(n) => "Sheet '"@ + n@ + "' already exists"@,
    }
}

impl EngineError {
    /// The human-readable message of this rejection.
    pub fn message(&self) -> (r: String)
        ensures
            r@ == err_msg_spec(*self),
    {
        match self {
            EngineError::EmptyFormula => chars_to_string(&str_to_chars("Formula cannot be empty")),
            EngineError::FormulaTooLong => chars_to_string(
                &str_to_chars("Formula too long (max 8192 characters)"),
            ),
            EngineError::InvalidRow(r) => {
                let mut v = str_to_chars("Invalid row: ");
                push_digits(*r as u128, &mut v);
                push_str_chars(&mut v, " (must be 1-1048576)");
                chars_to_string(&v)
            },
            EngineError::InvalidColumn(c) => {
                let mut v = str_to_chars("Invalid column: ");
                push_digits(*c as u128, &mut v);
                push_str_chars(&mut v, " (must be 1-16384)");
                chars_to_string(&v)
            },
            EngineError::EmptySheetName => chars_to_string(
                &str_to_chars("Sheet name cannot be empty"),
            ),
            EngineError::SheetNameTooLong => chars_to_string(
                &str_to_chars("Sheet name too long (max 31 characters)"),
            ),
            EngineError::SheetNotFound(n) => {
                let mut v = str_to_chars("Sheet '");
                push_all(&mut v, n);
                push_str_chars(&mut v, "' not found");
                chars_to_string(&v)
            },
            EngineError::DuplicateSheet(n) => {
                let mut v = str_to_chars("Sheet '");
                push_all(&mut v, n);
                push_str_chars(&mut v, "' already exists");
                chars_to_string(&v)
            },
        }
    }
}

/// The reference gate: a row or column out of range, or a bad sheet
/// name, rejects the request; nothing is clamped.
pub open spec fn validate_err(sheet: Seq<char>, row: u32, col: u32) -> Option<EngineError> {
    if row < 1 || row > 1048576 {
        Some(EngineError::InvalidRow(row))
    } else if col < 1 || col > 16384 {
        Some(EngineError::InvalidColumn(col))
    } else if sheet.len() == 0 {
        Some(EngineError::EmptySheetName)
    } else if sheet.len() > 31 {
        Some(EngineError::SheetNameTooLong)
    } else {
        None
    }
}

/// Checks a cell reference; `None` means the reference is acceptable.
pub fn validate_cell_reference(sheet: &Vec<char>, row: u32, col: u32) -> (r: Option<EngineError>)
    ensures
        r == validate_err(sheet@, row, col),
{
    if row < 1 || row > 1048576 {
        Some(EngineError::InvalidRow(row))
    } else if col < 1 || col > 16384 {
        Some(EngineError::InvalidColumn(col))
    } else if sheet.len() == 0 {
        Some(EngineError::EmptySheetName)
    } else if sheet.len() > 31 {
        Some(EngineError::SheetNameTooLong)
    } else {
        None
    }
}

/// Builds the composite cache key text.
pub fn build_key(sheet: &Vec<char>, row: u32, col: u32, formula: &Vec<char>) -> (r: Vec<char>)
    ensures
        r@ == cache_key_spec(sheet@, row, col, formula@),
{
    let mut k: Vec<char> = Vec::new();
    push_all(&mut k, sheet);
    k.push(':');
    push_digits(row as u128, &mut k);
    k.push(':');
    push_digits(col as u128, &mut k);
    k.push(':');
    push_all(&mut k, formula);
    assert(k@ =~= cache_key_spec(sheet@, row, col, formula@));
    k
}

/// A request that passes every gate: non-empty and bounded formula text,
/// an acceptable reference, and an existing sheet.
pub open spec fn accepted(e: IronCalcEngine, fc: Seq<char>, sc: Seq<char>, row: u32, col: u32) -> bool {
    &&& 0 < fc.len() <= 8192
    &&& validate_err(sc, row, col) is None
    &&& has_sheet(e.sheets@, sc)
}

/// What a freshly computed result holds: the evaluator's value or its
/// error code, the derived cell address, and the classification tag.
pub open spec fn fr_matches_eval(fr: FormulaResult, fc: Seq<char>, row: u32, col: u32) -> bool {
    let ev = eval_spec(fc);
    &&& fr.value@ == (match ev {
        Ok(v) => v,
        Err(_) => Seq::<char>::empty(),
    })
    &&& (match (fr.error, ev) {
        (Some(m), Err(em)) => m@ == em,
        (None, Ok(_)) => true,
        _ => false,
    })
    &&& fr.cell_address@ == addr_spec(col, row)
    &&& fr.formula_type@ == (if ev is Ok {
        classify_spec(fc)
    } else {
        "error"@
    })
}

/// The engine: worksheets by name, the active sheet, telemetry, and the
/// bounded result cache.
pub struct IronCalcEngine {
    pub sheets: Vec<Worksheet>,
    pub active_sheet: Vec<char>,
    pub telemetry: Telemetry,
    pub cache: Vec<CacheEntry>,
    pub max_cache_size: usize,
}

pub open spec fn names_unique(s: Seq<Worksheet>) -> bool {
    forall|i: int, j: int| 0 <= i < j < s.len() ==> #[trigger] s[i].name@ != #[trigger] s[j].name@
}

pub open spec fn has_sheet(s: Seq<Worksheet>, name: Seq<char>) -> bool {
    exists|i: int| 0 <= i < s.len() && #[trigger] s[i].name@ == name
}

pub open spec fn sheet_idx(s: Seq<Worksheet>, name: Seq<char>) -> int {
    choose|i: int| 0 <= i < s.len() && #[trigger] s[i].name@ == name
}

/// The worksheet stored under a name; meaningful when the name exists.
pub open spec fn sheet_at(s: Seq<Worksheet>, name: Seq<char>) -> Worksheet {
    s[sheet_idx(s, name)]
}

/// The view of one cell of one sheet: value text, formula text, write
/// time — `None` when the sheet or the address is absent.
pub open spec fn sheet_cell(s: Seq<Worksheet>, name: Seq<char>, r: u32, c: u32) -> Option<
    (Seq<char>, Option<Seq<char>>, u64),
> {
    if has_sheet(s, name) {
        lookup_cell(sheet_at(s, name).cells@, r, c)
    } else {
        None
    }
}

/// The text a read returns: a never-written address reads as empty text.
pub open spec fn sheet_cell_text(s: Seq<Worksheet>, name: Seq<char>, r: u32, c: u32) -> Seq<
    char,
> {
    match sheet_cell(s, name, r, c) {
        Some(cv) => cv.0,
        None => Seq::empty(),
    }
}

impl IronCalcEngine {
    /// All invariants of the engine state: unique sheet names,
    /// well-formed worksheets, a well-formed bounded cache, coherent
    /// telemetry, and an active sheet that exists.
    pub open spec fn wf(self) -> bool {
        &&& names_unique(self.sheets@)
        &&& forall|i: int| 0 <= i < self.sheets@.len() ==> ws_wf(#[trigger] self.sheets@[i])
        &&& cache_wf(self.cache@)
        &&& tele_wf(self.telemetry)
        &&& self.max_cache_size == 10000
        &&& self.cache@.len() <= 10000
        &&& has_sheet(self.sheets@, self.active_sheet@)
    }
}

/// The worksheet a name picks is the one at its index.
pub proof fn lemma_sheet_at_idx(s: Seq<Worksheet>, i: int)
    requires
        names_unique(s),
        0 <= i < s.len(),
    ensures
        has_sheet(s, s[i].name@),
        sheet_at(s, s[i].name@) == s[i],
        sheet_idx(s, s[i].name@) == i,
{
    assert(has_sheet(s, s[i].name@));
    let j = sheet_idx(s, s[i].name@);
    if j != i {
        if j < i {
            assert(s[j].name@ != s[i].name@);
        } else {
            assert(s[i].name@ != s[j].name@);
        }
    }
}

/// Replacing one worksheet under the same name changes that name's sheet
/// and nothing else.
pub proof fn lemma_sheets_update(s: Seq<Worksheet>, i: int, ws2: Worksheet)
    requires
        names_unique(s),
        0 <= i < s.len(),
        ws2.name@ == s[i].name@,
    ensures
        names_unique(s.update(i, ws2)),
        forall|n: Seq<char>| #[trigger] has_sheet(s.update(i, ws2), n) <==> has_sheet(s, n),
        sheet_at(s.update(i, ws2), s[i].name@) == ws2,
        forall|n: Seq<char>|
            has_sheet(s, n) && n != s[i].name@ ==> #[trigger] sheet_at(s.update(i, ws2), n) == sheet_at(
                s,
                n,
            ),
{
    let s2 = s.update(i, ws2);
    assert(forall|j: int| 0 <= j < s.len() ==> #[trigger] s2[j].name@ == s[j].name@);
    assert forall|n: Seq<char>| #[trigger] has_sheet(s2, n) <==> has_sheet(s, n) by {
        if has_sheet(s, n) {
            let j = choose|j: int| 0 <= j < s.len() && #[trigger] s[j].name@ == n;
            assert(s2[j].name@ == n);
        }
        if has_sheet(s2, n) {
            let j = choose|j: int| 0 <= j < s2.len() && #[trigger] s2[j].name@ == n;
            assert(s[j].name@ == n);
        }
    }
    lemma_sheet_at_idx(s, i);
    let j2 = sheet_idx(s2, s[i].name@);
    assert(s2[i].name@ == s[i].name@);
    assert(has_sheet(s2, s[i].name@));
    if j2 != i {
        assert(s[j2].name@ == s2[j2].name@);
        if j2 < i {
            assert(s[j2].name@ != s[i].name@);
        } else {
            assert(s[i].name@ != s[j2].name@);
        }
    }
    assert forall|n: Seq<char>|
        has_sheet(s, n) && n != s[i].name@ implies #[trigger] sheet_at(s2, n) == sheet_at(s, n) by {
        let ja = sheet_idx(s, n);
        let jb = sheet_idx(s2, n);
        assert(0 <= ja < s.len() && s[ja].name@ == n);
        assert(has_sheet(s2, n));
        assert(0 <= jb < s2.len() && s2[jb].name@ == n);
        assert(s[jb].name@ == n);
        if ja != jb {
            if ja < jb {
                assert(s[ja].name@ != s[jb].name@);
            } else {
                assert(s[jb].name@ != s[ja].name@);
            }
        }
        assert(jb != i);
        assert(s2[jb] == s[jb]);
    }
}

/// Appending a worksheet under a fresh name adds that name and no other.
pub proof fn lemma_sheets_push(s: Seq<Worksheet>, ws2: Worksheet)
    requires
        names_unique(s),
        !has_sheet(s, ws2.name@),
    ensures
        names_unique(s + seq![ws2]),
        has_sheet(s + seq![ws2], ws2.name@),
        sheet_at(s + seq![ws2], ws2.name@) == ws2,
        forall|n: Seq<char>|
            n != ws2.name@ ==> (#[trigger] has_sheet(s + seq![ws2], n) <==> has_sheet(s, n)),
        forall|n: Seq<char>|
            n != ws2.name@ && has_sheet(s, n) ==> #[trigger] sheet_at(s + seq![ws2], n) == sheet_at(
                s,
                n,
            ),
{
    let s2 = s + seq![ws2];
    assert(forall|j: int| 0 <= j < s.len() ==> #[trigger] s2[j].name@ == s[j].name@);
    assert(s2[s.len() as int] == ws2);
    assert forall|i: int, j: int| 0 <= i < j < s2.len() implies #[trigger] s2[i].name@
        != #[trigger] s2[j].name@ by {
        if j == s.len() {
            assert(s2[i].name@ == s[i].name@);
            if s[i].name@ == ws2.name@ {
                assert(has_sheet(s, ws2.name@));
            }
        }
    }
    lemma_sheet_at_idx(s2, s.len() as int);
    assert forall|n: Seq<char>|
        n != ws2.name@ implies (#[trigger] has_sheet(s2, n) <==> has_sheet(s, n)) by {
        if has_sheet(s, n) {
            let j = choose|j: int| 0 <= j < s.len() && #[trigger] s[j].name@ == n;
            assert(s2[j].name@ == n);
        }
        if has_sheet(s2, n) {
            let j = choose|j: int| 0 <= j < s2.len() && #[trigger] s2[j].name@ == n;
            assert(j != s.len());
            assert(s[j].name@ == n);
        }
    }
    assert forall|n: Seq<char>|
        n != ws2.name@ && has_sheet(s, n) implies #[trigger] sheet_at(s2, n) == sheet_at(s, n) by {
        let ja = sheet_idx(s, n);
        assert(0 <= ja < s.len() && s[ja].name@ == n);
        assert(s2[ja].name@ == n);
        assert(has_sheet(s2, n));
        let jb = sheet_idx(s2, n);
        assert(0 <= jb < s2.len() && s2[jb].name@ == n);
        assert(jb != s.len());
        assert(s[jb].name@ == n);
        if ja != jb {
            if ja < jb {
                assert(s[ja].name@ != s[jb].name@);
            } else {
                assert(s[jb].name@ != s[ja].name@);
            }
        }
        assert(s2[jb] == s[jb]);
    }
}

/// The index of a sheet name, scanning in storage order.
fn find_ws(sheets: &Vec<Worksheet>, name: &Vec<char>) -> (r: Option<usize>)
    ensures
        match r {
            Some(i) => i < sheets@.len() && sheets@[i as int].name@ == name@,
            None => !has_sheet(sheets@, name@),
        },
{
    let mut i: usize = 0;
    while i < sheets.len()
        invariant
            0 <= i <= sheets@.len(),
            forall|j: int| 0 <= j < i ==> #[trigger] sheets@[j].name@ != name@,
        decreases sheets@.len() - i,
    {
        if eq_chars(&sheets[i].name, name) {
            return Some(i);
        }
        i = i + 1;
    }
    None
}

/// `x`, saturated at the largest `u64`.
pub open spec fn min64(x: int) -> int {
    if x > u64::MAX {
        u64::MAX as int
    } else {
        x
    }
}

/// The structural size of the worksheets.
pub open spec fn mem_sheets(s: Seq<Worksheet>) -> int
    decreases s.len(),
{
    if s.len() == 0 {
        0
    } else {
        mem_sheets(s.drop_last()) + SHEET_BASE_BYTES + s.last().cells@.len() * CELL_BYTES
    }
}

/// The structural size estimate of the whole engine.
pub open spec fn mem_estimate(e: IronCalcEngine) -> int {
    ENGINE_BASE_BYTES + mem_sheets(e.sheets@) + e.cache@.len() * CACHE_ENTRY_BYTES
}

fn sat_add64(a: u64, b: u64) -> (r: u64)
    ensures
        r == min64(a + b),
{
    if a > u64::MAX - b {
        u64::MAX
    } else {
        a + b
    }
}

fn sat_mul64(a: u64, b: u64) -> (r: u64)
    ensures
        r == min64(a * b),
{
    proof {
        assert((a as int) * (b as int) < 0x10000000000000000 * 0x10000000000000000)
            by (nonlinear_arith)
            requires a < 0x10000000000000000, b < 0x10000000000000000;
    }
    let p = (a as u128) * (b as u128);
    if p > u64::MAX as u128 {
        u64::MAX
    } else {
        p as u64
    }
}

/// Round trip: a state in which a write of `v` just landed at an
/// address — which is what `set_cell_value_js`'s contract says of the
/// state it produces — reads back exactly `v` there, which is what
/// `get_cell_value` then returns for that address.
pub proof fn lemma_set_get_round_trip(
    e2: IronCalcEngine,
    sc: Seq<char>,
    row: u32,
    col: u32,
    v: Seq<char>,
)
    requires
        validate_err(sc, row, col) is None,
        match sheet_cell(e2.sheets@, sc, row, col) {
            Some(cv) => cv.0 == v && cv.1 is None,
            None => false,
        },
    ensures
        sheet_cell_text(e2.sheets@, sc, row, col) == v,
{
}

/// Determinism through the cache: once an accepted evaluation's snapshot
/// is stored under its key — which is what `evaluate_formula`'s contract
/// says of a miss with room in the cache — the same request is a hit:
/// the contract then returns that very snapshot, and moves only the
/// evaluation and hit counters.
pub proof fn lemma_repeat_evaluation_hits(
    e2: IronCalcEngine,
    fr1: FormulaResult,
    fc: Seq<char>,
    sc: Seq<char>,
    row: u32,
    col: u32,
)
    requires
        tele_wf(e2.telemetry),
        accepted(e2, fc, sc, row, col),
        cache_lookup(e2.cache@, cache_key_spec(sc, row, col, fc)) == Some(fr_view(fr1)),
    ensures
        cache_has(e2.cache@, cache_key_spec(sc, row, col, fc)),
        cache_lookup(e2.cache@, cache_key_spec(sc, row, col, fc)).unwrap() == fr_view(fr1),
        e2.telemetry.total_evaluations < 0xffff_ffffu64 ==> after_hit(e2.telemetry).cache_hits
            == e2.telemetry.cache_hits + 1 && after_hit(e2.telemetry).evaluated_count
            == e2.telemetry.evaluated_count && after_hit(e2.telemetry).total_time_ms
            == e2.telemetry.total_time_ms,
{
}

/// A sheet that exists under a well-formed name accepts cell writes: a
/// valid reference to it passes every gate of `set_cell_value_js`, whose
/// contract then promises the write succeeds.
pub proof fn lemma_new_sheet_accepts_writes(
    e2: IronCalcEngine,
    name: Seq<char>,
    row: u32,
    col: u32,
)
    requires
        has_sheet(e2.sheets@, name),
        1 <= name.len() <= 31,
        1 <= row <= 1048576,
        1 <= col <= 16384,
    ensures
        validate_err(name, row, col) is None,
        has_sheet(e2.sheets@, name),
{
}

pub proof fn lemma_mem_sheets_nonneg(s: Seq<Worksheet>)
    ensures
        mem_sheets(s) >= 0,
    decreases s.len(),
{
    if s.len() > 0 {
        lemma_mem_sheets_nonneg(s.drop_last());
        assert(s.last().cells@.len() * CELL_BYTES >= 0) by (nonlinear_arith);
    }
}

impl IronCalcEngine {
    /// A fresh engine: one empty worksheet named `Sheet1`, an empty
    /// cache capped at 10000 entries, zeroed telemetry.
    pub fn new() -> (e: IronCalcEngine)
        ensures
            e.wf(),
            e.sheets@.len() == 1,
            e.sheets@[0].name@ == "Sheet1"@,
            e.sheets@[0].cells@.len() == 0,
            e.active_sheet@ == "Sheet1"@,
            e.cache@.len() == 0,
            e.telemetry.total_evaluations == 0,
            e.telemetry.evaluated_count == 0,
            e.telemetry.cache_hits == 0,
            e.telemetry.total_time_ms == 0,
            e.telemetry.error_count == 0,
            e.telemetry.memory_usage_bytes == 0,
            forall|n: Seq<char>, r: u32, c: u32| sheet_cell(e.sheets@, n, r, c) is None,
    {
        let name = str_to_chars("Sheet1");
        let ws = Worksheet::new(name);
        let mut sheets: Vec<Worksheet> = Vec::new();
        sheets.push(ws);
        let e = IronCalcEngine {
            sheets,
            active_sheet: str_to_chars("Sheet1"),
            telemetry: Telemetry::zeroed(),
            cache: Vec::new(),
            max_cache_size: 10000,
        };
        proof {
            assert(e.sheets@[0].name@ == "Sheet1"@);
            assert(has_sheet(e.sheets@, "Sheet1"@));
            assert forall|n: Seq<char>, r: u32, c: u32| sheet_cell(e.sheets@, n, r, c) is None by {
                if has_sheet(e.sheets@, n) {
                    let i = sheet_idx(e.sheets@, n);
                    assert(0 <= i < 1);
                    assert(sheet_at(e.sheets@, n).cells@.len() == 0);
                }
            }
        }
        e
    }

    /// Writes one cell of the sheet at `widx`, leaving every other cell
    /// of every sheet as it was.
    fn write_cell(
        &mut self,
        widx: usize,
        row: u32,
        col: u32,
        value: Vec<char>,
        formula: Option<Vec<char>>,
        now: u64,
    )
        requires
            old(self).wf(),
            widx < old(self).sheets@.len(),
        ensures
            final(self).wf(),
            final(self).cache == old(self).cache,
            final(self).telemetry == old(self).telemetry,
            final(self).active_sheet == old(self).active_sheet,
            final(self).max_cache_size == old(self).max_cache_size,
            final(self).sheets@.len() == old(self).sheets@.len(),
            forall|n: Seq<char>|
                #[trigger] has_sheet(final(self).sheets@, n) <==> has_sheet(old(self).sheets@, n),
            sheet_cell(final(self).sheets@, old(self).sheets@[widx as int].name@, row, col)
                == Some((value@, opt_view(formula), now)),
            forall|n: Seq<char>, r2: u32, c2: u32|
                !(n == old(self).sheets@[widx as int].name@ && r2 == row && c2 == col)
                    ==> #[trigger] sheet_cell(final(self).sheets@, n, r2, c2) == sheet_cell(
                    old(self).sheets@,
                    n,
                    r2,
                    c2,
                ),
    {
        let ghost s0 = self.sheets@;
        let ghost sc = s0[widx as int].name@;
        let mut ws = self.sheets.remove(widx);
        ws.set_cell(row, col, value, formula, now);
        self.sheets.insert(widx, ws);
        proof {
            let ws2 = self.sheets@[widx as int];
            assert(self.sheets@ =~= s0.update(widx as int, ws2));
            assert(ws2.name@ == sc);
            lemma_sheets_update(s0, widx as int, ws2);
            lemma_sheet_at_idx(s0, widx as int);
            assert(sheet_at(self.sheets@, sc) == ws2);
            assert(has_sheet(self.sheets@, sc));
            assert(lookup_cell(ws2.cells@, row, col) == Some((value@, opt_view(formula), now)));
            assert forall|n: Seq<char>, r2: u32, c2: u32|
                !(n == sc && r2 == row && c2 == col) implies #[trigger] sheet_cell(
                self.sheets@,
                n,
                r2,
                c2,
            ) == sheet_cell(s0, n, r2, c2) by {
                if has_sheet(s0, n) {
                    if n == sc {
                        assert(sheet_at(s0, n) == s0[widx as int]);
                        assert(lookup_cell(ws2.cells@, r2, c2) == lookup_cell(
                            s0[widx as int].cells@,
                            r2,
                            c2,
                        ));
                    } else {
                        assert(sheet_at(self.sheets@, n) == sheet_at(s0, n));
                    }
                }
            }
            assert(forall|i: int|
                0 <= i < self.sheets@.len() ==> ws_wf(#[trigger] self.sheets@[i]));
        }
    }

    /// Sets a cell to a plain value: the reference is validated, the
    /// sheet must exist, and the cell is written with no source formula.
    pub fn set_cell_value_js(&mut self, sheet_name: &str, row: u32, col: u32, value: &str) -> (r:
        Result<(), EngineError>)
        requires
            old(self).wf(),
        ensures
            final(self).wf(),
            validate_err(sheet_name@, row, col) is Some ==> r == Result::<(), EngineError>::Err(
                validate_err(sheet_name@, row, col).unwrap(),
            ) && *final(self) == *old(self),
            validate_err(sheet_name@, row, col) is None && !has_sheet(
                old(self).sheets@,
                sheet_name@,
            ) ==> (match r {
                Err(EngineError::SheetNotFound(n)) => n@ == sheet_name@,
                _ => false,
            }) && *final(self) == *old(self),
            validate_err(sheet_name@, row, col) is None && has_sheet(
                old(self).sheets@,
                sheet_name@,
            ) ==> r is Ok && final(self).cache == old(self).cache && final(self).telemetry == old(
                self,
            ).telemetry && (match sheet_cell(final(self).sheets@, sheet_name@, row, col) {
                Some(cv) => cv.0 == value@ && cv.1 is None,
                None => false,
            }) && (forall|n: Seq<char>, r2: u32, c2: u32|
                !(n == sheet_name@ && r2 == row && c2 == col) ==> #[trigger] sheet_cell(
                    final(self).sheets@,
                    n,
                    r2,
                    c2,
                ) == sheet_cell(old(self).sheets@, n, r2, c2)) && (forall|n: Seq<char>|
                #[trigger] has_sheet(final(self).sheets@, n) <==> has_sheet(
                    old(self).sheets@,
                    n,
                )) && final(self).active_sheet == old(self).active_sheet
                && final(self).max_cache_size == old(self).max_cache_size,
    {
        let schars = str_to_chars(sheet_name);
        if let Some(e) = validate_cell_reference(&schars, row, col) {
            return Err(e);
        }
        let widx = match find_ws(&self.sheets, &schars) {
            Some(i) => i,
            None => {
                return Err(EngineError::SheetNotFound(schars));
            },
        };
        let vchars = str_to_chars(value);
        let now = now_millis();
        proof {
            assert(self.sheets@[widx as int].name@ == sheet_name@);
        }
        self.write_cell(widx, row, col, vchars, None, now);
        Ok(())
    }

    /// Reads a cell's text: empty text for a never-written address; only
    /// a missing sheet is an error.
    pub fn get_cell_value(&self, sheet_name: &str, row: u32, col: u32) -> (r: Result<
        String,
        EngineError,
    >)
        requires
            self.wf(),
        ensures
            match r {
                Ok(v) => has_sheet(self.sheets@, sheet_name@) && v@ == sheet_cell_text(
                    self.sheets@,
                    sheet_name@,
                    row,
                    col,
                ),
                Err(e) => !has_sheet(self.sheets@, sheet_name@) && (match e {
                    EngineError::SheetNotFound(n) => n@ == sheet_name@,
                    _ => false,
                }),
            },
    {
        let schars = str_to_chars(sheet_name);
        let widx = match find_ws(&self.sheets, &schars) {
            Some(i) => i,
            None => {
                return Err(EngineError::SheetNotFound(schars));
            },
        };
        proof {
            lemma_sheet_at_idx(self.sheets@, widx as int);
        }
        let ws = &self.sheets[widx];
        match ws.get_cell(row, col) {
            Some(cell) => Ok(chars_to_string(&cell.value)),
            None => Ok(chars_to_string(&Vec::new())),
        }
    }

    /// Creates an empty worksheet; a name already in use is refused and
    /// nothing changes.
    pub fn create_sheet(&mut self, name: &str) -> (r: Result<(), EngineError>)
        requires
            old(self).wf(),
        ensures
            final(self).wf(),
            has_sheet(old(self).sheets@, name@) ==> (match r {
                Err(EngineError::DuplicateSheet(n)) => n@ == name@,
                _ => false,
            }) && *final(self) == *old(self),
            !has_sheet(old(self).sheets@, name@) ==> r is Ok && final(self).cache == old(
                self,
            ).cache && final(self).telemetry == old(self).telemetry && has_sheet(
                final(self).sheets@,
                name@,
            ) && (forall|r2: u32, c2: u32|
                sheet_cell(final(self).sheets@, name@, r2, c2) is None) && (forall|n: Seq<char>|
                n != name@ ==> (#[trigger] has_sheet(final(self).sheets@, n) <==> has_sheet(
                    old(self).sheets@,
                    n,
                ))) && (forall|n: Seq<char>, r2: u32, c2: u32|
                n != name@ ==> #[trigger] sheet_cell(final(self).sheets@, n, r2, c2) == sheet_cell(
                    old(self).sheets@,
                    n,
                    r2,
                    c2,
                )) && sheet_at(final(self).sheets@, name@).max_row == 0
                && sheet_at(final(self).sheets@, name@).max_col == 0
                && sheet_at(final(self).sheets@, name@).cells@.len() == 0
                && final(self).active_sheet == old(self).active_sheet
                && final(self).max_cache_size == old(self).max_cache_size,
    {
        let nchars = str_to_chars(name);
        match find_ws(&self.sheets, &nchars) {
            Some(i) => {
                proof {
                    assert(has_sheet(self.sheets@, name@));
                }
                Err(EngineError::DuplicateSheet(nchars))
            },
            None => {
                let ghost s0 = self.sheets@;
                let ws = Worksheet::new(nchars);
                proof {
                    lemma_sheets_push(s0, ws);
                }
                let ghost wsv = ws;
                self.sheets.push(ws);
                proof {
                    assert(self.sheets@ =~= s0 + seq![wsv]);
                    assert(sheet_at(self.sheets@, name@).cells@.len() == 0);
                    assert forall|r2: u32, c2: u32|
                        sheet_cell(self.sheets@, name@, r2, c2) is None by {
                        assert(lookup_cell(sheet_at(self.sheets@, name@).cells@, r2, c2) is None);
                    }
                    assert forall|n: Seq<char>, r2: u32, c2: u32| n != name@ implies #[trigger] sheet_cell(
                        self.sheets@,
                        n,
                        r2,
                        c2,
                    ) == sheet_cell(s0, n, r2, c2) by {
                        if has_sheet(s0, n) {
                            assert(sheet_at(self.sheets@, n) == sheet_at(s0, n));
                        }
                    }
                    assert(has_sheet(self.sheets@, old(self).active_sheet@));
                    assert(forall|i: int|
                        0 <= i < self.sheets@.len() ==> ws_wf(#[trigger] self.sheets@[i]));
                }
                Ok(())
            },
        }
    }

    /// Evaluates a formula in a cell: validation, cache lookup,
    /// evaluation, telemetry, cache store and cell write, in that order.
    /// A rejected request leaves the engine untouched; an evaluation
    /// error comes back inside a normally returned result.
    pub fn evaluate_formula(&mut self, formula: &str, sheet_name: &str, row: u32, col: u32) -> (r:
        Result<FormulaResult, EngineError>)
        requires
            old(self).wf(),
        ensures
            final(self).wf(),
            formula@.len() == 0 ==> (r matches Err(EngineError::EmptyFormula)) && *final(self)
                == *old(self),
            formula@.len() > 8192 ==> (r matches Err(EngineError::FormulaTooLong)) && *final(self)
                == *old(self),
            0 < formula@.len() <= 8192 && validate_err(sheet_name@, row, col) is Some ==> r
                == Result::<FormulaResult, EngineError>::Err(
                validate_err(sheet_name@, row, col).unwrap(),
            ) && *final(self) == *old(self),
            0 < formula@.len() <= 8192 && validate_err(sheet_name@, row, col) is None
                && !has_sheet(old(self).sheets@, sheet_name@) ==> (match r {
                Err(EngineError::SheetNotFound(n)) => n@ == sheet_name@,
                _ => false,
            }) && *final(self) == *old(self),
            accepted(*old(self), formula@, sheet_name@, row, col) && cache_has(
                old(self).cache@,
                cache_key_spec(sheet_name@, row, col, formula@),
            ) ==> (match r {
                Ok(fr) => fr_view(fr) == cache_lookup(
                    old(self).cache@,
                    cache_key_spec(sheet_name@, row, col, formula@),
                ).unwrap(),
                _ => false,
            }) && final(self).sheets == old(self).sheets && final(self).cache == old(self).cache
                && final(self).active_sheet == old(self).active_sheet && final(self).max_cache_size
                == old(self).max_cache_size && final(self).telemetry == after_hit(
                old(self).telemetry,
            ),
            accepted(*old(self), formula@, sheet_name@, row, col) && !cache_has(
                old(self).cache@,
                cache_key_spec(sheet_name@, row, col, formula@),
            ) ==> (match r {
                Ok(fr) => {
                    &&& fr_matches_eval(fr, formula@, row, col)
                    &&& final(self).telemetry == (Telemetry {
                        memory_usage_bytes: min64(mem_estimate(*old(self))) as u64,
                        ..after_eval(
                            old(self).telemetry,
                            fr.execution_time_ms,
                            eval_spec(formula@) is Err,
                        )
                    })
                    &&& (if old(self).cache@.len() < 10000 {
                        final(self).cache@.len() == old(self).cache@.len() + 1 && cache_lookup(
                            final(self).cache@,
                            cache_key_spec(sheet_name@, row, col, formula@),
                        ) == Some(fr_view(fr)) && (forall|k2: Seq<char>|
                            k2 != cache_key_spec(sheet_name@, row, col, formula@)
                                ==> #[trigger] cache_lookup(final(self).cache@, k2) == cache_lookup(
                                old(self).cache@,
                                k2,
                            ))
                    } else {
                        final(self).cache == old(self).cache
                    })
                    &&& (match sheet_cell(final(self).sheets@, sheet_name@, row, col) {
                        Some(cv) => cv.0 == fr.value@ && cv.1 == Some(formula@),
                        None => false,
                    })
                    &&& (forall|n: Seq<char>, r2: u32, c2: u32|
                        !(n == sheet_name@ && r2 == row && c2 == col) ==> #[trigger] sheet_cell(
                            final(self).sheets@,
                            n,
                            r2,
                            c2,
                        ) == sheet_cell(old(self).sheets@, n, r2, c2))
                    &&& (forall|n: Seq<char>|
                        #[trigger] has_sheet(final(self).sheets@, n) <==> has_sheet(
                            old(self).sheets@,
                            n,
                        ))
                    &&& final(self).active_sheet == old(self).active_sheet
                    &&& final(self).max_cache_size == old(self).max_cache_size
                },
                _ => false,
            }),
    {
        let fchars = str_to_chars(formula);
        let schars = str_to_chars(sheet_name);
        if fchars.len() == 0 {
            return Err(EngineError::EmptyFormula);
        }
        if fchars.len() > 8192 {
            return Err(EngineError::FormulaTooLong);
        }
        if let Some(e) = validate_cell_reference(&schars, row, col) {
            return Err(e);
        }
        let widx = match find_ws(&self.sheets, &schars) {
            Some(i) => i,
            None => {
                return Err(EngineError::SheetNotFound(schars));
            },
        };
        let key = build_key(&schars, row, col, &fchars);
        let ghost kv = key@;
        match cache_find(&self.cache, &key) {
            Some(hit) => {
                let out = hit.duplicate();
                self.telemetry.record_hit();
                return Ok(out);
            },
            None => {},
        }
        let start = now_millis();
        let ev = parse_and_evaluate(&fchars);
        let end = now_millis();
        let e64: u64 = if end >= start {
            end - start
        } else {
            0
        };
        let ms: u32 = if e64 > 0xffff_ffff {
            0xffff_ffff
        } else {
            e64 as u32
        };
        let failed = ev.is_err();
        self.telemetry.record_eval(ms, failed);
        let mem = self.get_memory_usage();
        self.telemetry.set_memory(mem);
        let (vchars, err_s): (Vec<char>, Option<String>) = match ev {
            Ok(v) => (v, None),
            Err(e) => (Vec::new(), Some(chars_to_string(&e))),
        };
        let ftype: Vec<char> = if failed {
            str_to_chars("error")
        } else {
            classify_formula(&fchars)
        };
        let addr = cell_address(col, row);
        let fr = FormulaResult {
            value: chars_to_string(&vchars),
            error: err_s,
            execution_time_ms: ms,
            cell_address: chars_to_string(&addr),
            formula_type: chars_to_string(&ftype),
        };
        if self.cache.len() < self.max_cache_size {
            let ghost c0 = self.cache@;
            let entry = CacheEntry { key, result: fr.duplicate() };
            proof {
                lemma_cache_some(c0, kv);
            }
            self.cache.push(entry);
            proof {
                let ghost e = self.cache@.last();
                assert(self.cache@ =~= c0 + seq![e]);
                assert(e.key@ == kv && fr_view(e.result) == fr_view(fr));
                assert forall|k2: Seq<char>|
                    k2 != kv implies #[trigger] cache_lookup(self.cache@, k2) == cache_lookup(
                    c0,
                    k2,
                ) by {
                    lemma_cache_push(c0, e, k2);
                }
                lemma_cache_push(c0, e, kv);
                assert forall|i: int, j: int| 0 <= i < j < self.cache@.len() implies #[trigger] self.cache@[i].key@
                    != #[trigger] self.cache@[j].key@ by {
                    if j == c0.len() {
                        assert(self.cache@[i].key@ != kv);
                    }
                }
            }
        }
        let now = now_millis();
        proof {
            assert(self.wf());
            assert(self.sheets@[widx as int].name@ == sheet_name@);
        }
        self.write_cell(widx, row, col, vchars, Some(fchars), now);
        Ok(fr)
    }

    /// A snapshot of the running totals.
    pub fn get_performance_metrics(&self) -> (r: PerformanceMetrics)
        ensures
            r.total_evaluations == self.telemetry.total_evaluations,
            r.evaluated_count == self.telemetry.evaluated_count,
            r.total_execution_time_ms == self.telemetry.total_time_ms,
            r.error_count == self.telemetry.error_count,
            r.cache_hits == self.telemetry.cache_hits,
            r.memory_usage_bytes == self.telemetry.memory_usage_bytes,
    {
        PerformanceMetrics {
            total_evaluations: self.telemetry.total_evaluations,
            evaluated_count: self.telemetry.evaluated_count,
            total_execution_time_ms: self.telemetry.total_time_ms,
            error_count: self.telemetry.error_count,
            cache_hits: self.telemetry.cache_hits,
            memory_usage_bytes: self.telemetry.memory_usage_bytes,
        }
    }

    /// Drops every cache entry; always succeeds.
    pub fn clear_cache(&mut self)
        requires
            old(self).wf(),
        ensures
            final(self).wf(),
            final(self).cache@.len() == 0,
            final(self).sheets == old(self).sheets,
            final(self).telemetry == old(self).telemetry,
            final(self).active_sheet == old(self).active_sheet,
            final(self).max_cache_size == old(self).max_cache_size,
    {
        self.cache.clear();
    }

    /// The structural memory estimate: engine overhead, each worksheet
    /// with its cells, and the cache entries, saturating at `u64::MAX`.
    pub fn get_memory_usage(&self) -> (r: u64)
        ensures
            r == min64(mem_estimate(*self)),
    {
        let mut acc: u64 = ENGINE_BASE_BYTES;
        let mut i: usize = 0;
        proof {
            assert(self.sheets@.take(0) =~= Seq::<Worksheet>::empty());
        }
        while i < self.sheets.len()
            invariant
                0 <= i <= self.sheets@.len(),
                acc == min64(ENGINE_BASE_BYTES + mem_sheets(self.sheets@.take(i as int))),
            decreases self.sheets@.len() - i,
        {
            proof {
                assert(self.sheets@.take(i + 1).drop_last() =~= self.sheets@.take(i as int));
                assert(self.sheets@.take(i + 1).last() == self.sheets@[i as int]);
                lemma_mem_sheets_nonneg(self.sheets@.take(i as int));
                assert(self.sheets@[i as int].cells@.len() * CELL_BYTES >= 0) by (nonlinear_arith);
            }
            let cells = sat_mul64(self.sheets[i].cells.len() as u64, CELL_BYTES);
            let per = sat_add64(SHEET_BASE_BYTES, cells);
            acc = sat_add64(acc, per);
            i = i + 1;
        }
        proof {
            assert(self.sheets@.take(self.sheets@.len() as int) =~= self.sheets@);
            lemma_mem_sheets_nonneg(self.sheets@);
            assert(self.cache@.len() * CACHE_ENTRY_BYTES >= 0) by (nonlinear_arith);
        }
        let centries = sat_mul64(self.cache.len() as u64, CACHE_ENTRY_BYTES);
        sat_add64(acc, centries)
    }
}

} // verus!
