//! Frames as comma-separated text, for a look at what the signal path does.

use vstd::prelude::*;
use vstd::string::*;
use crate::dsp::analysis::AnalysisFrame;
use crate::dsp::BANDS;
use crate::single::Single;
use crate::text::{decimal, fixed_of, joined, lemma_joined_push, push_decimal, NumberText};

verus! {

/// A number, and how many digits behind the point to write.
pub type Cell = (Single, usize);

/// `t` is how a cell is written, with the comma before it.
pub open spec fn cell_of<N: NumberText>(cell: Cell, t: Seq<char>) -> bool {
    exists|n: Seq<char>| #[trigger] fixed_of::<N>(cell.0, cell.1, n) && t == seq![','] + n
}

/// `row` is the line for band `band` of number `number`, with these cells.
pub open spec fn row_of<N: NumberText>(number: nat, band: nat, cells: Seq<Cell>, row: Seq<char>) -> bool {
    exists|ts: Seq<Seq<char>>|
        {
            &&& #[trigger] ts.len() == cells.len()
            &&& forall|k: int| 0 <= k < cells.len() ==> cell_of::<N>(cells[k], #[trigger] ts[k])
            &&& row == decimal(number) + seq![','] + decimal(band) + joined(ts) + seq!['\n']
        }
}

fn push_row<N: NumberText>(out: &mut String, number: u32, band: usize, cells: &[Cell])
    ensures
        exists|row: Seq<char>| #[trigger]
            row_of::<N>(number as nat, band as nat, cells@, row) && final(out)@ == old(out)@ + row,
{
    let ghost start = out@;
    push_decimal(out, number as u64);
    out.push(',');
    push_decimal(out, band as u64);
    let ghost head = decimal(number as nat) + seq![','] + decimal(band as nat);
    let ghost mut ts: Seq<Seq<char>> = seq![];
    assert(out@ =~= start + head + joined(ts));
    let n: usize = cells.len();
    for k in 0..n
        invariant
            n == cells@.len(),
            ts.len() == k,
            out@ == start + head + joined(ts),
            forall|m: int| 0 <= m < k ==> cell_of::<N>(cells@[m], #[trigger] ts[m]),
    {
        let cell = cells[k];
        let t = N::fixed(cell.0, cell.1);
        out.push(',');
        out.append(t.as_str());
        proof {
            assert(call_ensures(N::fixed, (cell.0, cell.1), t));
            assert(fixed_of::<N>(cell.0, cell.1, t@));
            let part = seq![','] + t@;
            assert(cell_of::<N>(cell, part));
            lemma_joined_push(ts, part);
            ts = ts.push(part);
            assert(out@ =~= start + head + joined(ts));
        }
    }
    out.push('\n');
    proof {
        let row = decimal(number as nat) + seq![','] + decimal(band as nat) + joined(ts) + seq!['\n'];
        assert(ts.len() == cells@.len());
        assert(row_of::<N>(number as nat, band as nat, cells@, row));
        assert(out@ =~= start + row);
    }
}

/// The cells for one band of a list of frames or entries: number and cells.
pub open spec fn table_of<N: NumberText>(
    head: Seq<char>,
    count: nat,
    number: spec_fn(int) -> nat,
    cells: spec_fn(int, int) -> Seq<Cell>,
    text: Seq<char>,
) -> bool {
    exists|rows: Seq<Seq<char>>|
        {
            &&& #[trigger] rows.len() == count * BANDS
            &&& forall|f: int, b: int|
                0 <= f < count && 0 <= b < BANDS ==> #[trigger] row_of::<N>(
                    number(f),
                    b as nat,
                    cells(f, b),
                    rows[f * BANDS + b],
                )
            &&& text == head + joined(rows)
        }
}

// ----- Depth chain ------------------------------------------------------------

/// The heading of the depth chain table.
pub const DEPTH_CSV_HEADER: &'static str =
    "frame_idx,band,effective_depth,reduction_db,target_gain,smoothed_gain,gain_db,effective_q";

/// The first line of the depth chain table.
pub open spec fn depth_csv_header() -> Seq<char> {
    DEPTH_CSV_HEADER@.push('\n')
}

/// What the depth chain table tells of band `b`.
pub open spec fn depth_cells(f: AnalysisFrame, b: int) -> Seq<Cell> {
    seq![
        (f.effective_depth@[b], 6usize),
        (f.reduction_db@[b], 6usize),
        (f.target_gain@[b], 6usize),
        (f.reduction@[b], 6usize),
        (f.gain_db@[b], 6usize),
        (f.effective_q@[b], 6usize),
    ]
}

/// The way from depth to filter of every band of every frame, one line each.
pub fn format_depth_csv<N: NumberText>(frames: &Vec<AnalysisFrame>) -> (out: String)
    ensures
        table_of::<N>(
            depth_csv_header(),
            frames@.len(),
            |f: int| frames@[f].frame_idx as nat,
            |f: int, b: int| depth_cells(frames@[f], b),
            out@,
        ),
{
    let mut out = DEPTH_CSV_HEADER.to_owned();
    out.push('\n');
    let ghost mut rows: Seq<Seq<char>> = seq![];
    let ghost number = |f: int| frames@[f].frame_idx as nat;
    let ghost cells = |f: int, b: int| depth_cells(frames@[f], b);
    assert(out@ =~= depth_csv_header() + joined(rows));
    let n: usize = frames.len();
    for i in 0..n
        invariant
            n == frames@.len(),
            rows.len() == i * BANDS,
            out@ == depth_csv_header() + joined(rows),
            number == (|f: int| frames@[f].frame_idx as nat),
            cells == (|f: int, b: int| depth_cells(frames@[f], b)),
            forall|f: int, b: int|
                0 <= f < i && 0 <= b < BANDS ==> #[trigger] row_of::<N>(
                    number(f),
                    b as nat,
                    cells(f, b),
                    rows[f * BANDS + b],
                ),
    {
        for j in 0..BANDS
            invariant
                i < n,
                n == frames@.len(),
                rows.len() == i * BANDS + j,
                out@ == depth_csv_header() + joined(rows),
                number == (|f: int| frames@[f].frame_idx as nat),
                cells == (|f: int, b: int| depth_cells(frames@[f], b)),
                forall|f: int, b: int|
                    0 <= f <= i && 0 <= b < BANDS && (f < i || b < j) ==> #[trigger] row_of::<N>(
                        number(f),
                        b as nat,
                        cells(f, b),
                        rows[f * BANDS + b],
                    ),
        {
            let f = &frames[i];
            let line: [Cell; 6] = [
                (f.effective_depth[j], 6),
                (f.reduction_db[j], 6),
                (f.target_gain[j], 6),
                (f.reduction[j], 6),
                (f.gain_db[j], 6),
                (f.effective_q[j], 6),
            ];
            let ghost before = out@;
            push_row::<N>(&mut out, f.frame_idx, j, line.as_slice());
            proof {
                assert(line@ =~= depth_cells(*f, j as int));
                let row = choose|row: Seq<char>| #[trigger]
                    row_of::<N>(f.frame_idx as nat, j as nat, line@, row) && out@ == before + row;
                lemma_joined_push(rows, row);
                let old_rows = rows;
                rows = rows.push(row);
                assert(out@ =~= depth_csv_header() + joined(rows));
                assert forall|f: int, b: int|
                    0 <= f <= i && 0 <= b < BANDS && (f < i || b < j + 1) implies #[trigger] row_of::<N>(
                    number(f),
                    b as nat,
                    cells(f, b),
                    rows[f * BANDS + b],
                ) by {
                    if f < i || b < j {
                        assert(row_of::<N>(number(f), b as nat, cells(f, b), old_rows[f * BANDS + b]));
                    }
                }
            }
        }
    }
    assert(rows.len() == n * BANDS);
    out
}

// ----- Concentration ----------------------------------------------------------

/// One frame as the display took it in.
#[derive(Clone, Copy)]
pub struct DebugEntry {
    /// Running number of the frame on the display's side.
    pub hop: u32,
    pub centers: [Single; BANDS],
    pub levels: [Single; BANDS],
    pub concentration: [Single; BANDS],
    pub gains: [Single; BANDS],
}

/// The heading of the concentration table.
pub open spec fn debug_csv_header() -> Seq<char> {
    "hop,band,center_hz,level_db,concentration,gain_linear\n"@
}

/// What the concentration table tells of band `b`.
pub open spec fn debug_cells(e: DebugEntry, b: int) -> Seq<Cell> {
    seq![
        (e.centers@[b], 3usize),
        (e.levels@[b], 3usize),
        (e.concentration@[b], 6usize),
        (e.gains@[b], 6usize),
    ]
}

/// Level, concentration and gain of every band of every entry, one line each.
pub fn format_debug_csv<N: NumberText>(log: &Vec<DebugEntry>) -> (out: String)
    ensures
        table_of::<N>(
            debug_csv_header(),
            log@.len(),
            |f: int| log@[f].hop as nat,
            |f: int, b: int| debug_cells(log@[f], b),
            out@,
        ),
{
    let mut out = "hop,band,center_hz,level_db,concentration,gain_linear\n".to_owned();
    let ghost mut rows: Seq<Seq<char>> = seq![];
    let ghost number = |f: int| log@[f].hop as nat;
    let ghost cells = |f: int, b: int| debug_cells(log@[f], b);
    assert(out@ =~= debug_csv_header() + joined(rows));
    let n: usize = log.len();
    for i in 0..n
        invariant
            n == log@.len(),
            rows.len() == i * BANDS,
            out@ == debug_csv_header() + joined(rows),
            number == (|f: int| log@[f].hop as nat),
            cells == (|f: int, b: int| debug_cells(log@[f], b)),
            forall|f: int, b: int|
                0 <= f < i && 0 <= b < BANDS ==> #[trigger] row_of::<N>(
                    number(f),
                    b as nat,
                    cells(f, b),
                    rows[f * BANDS + b],
                ),
    {
        for j in 0..BANDS
            invariant
                i < n,
                n == log@.len(),
                rows.len() == i * BANDS + j,
                out@ == debug_csv_header() + joined(rows),
                number == (|f: int| log@[f].hop as nat),
                cells == (|f: int, b: int| debug_cells(log@[f], b)),
                forall|f: int, b: int|
                    0 <= f <= i && 0 <= b < BANDS && (f < i || b < j) ==> #[trigger] row_of::<N>(
                        number(f),
                        b as nat,
                        cells(f, b),
                        rows[f * BANDS + b],
                    ),
        {
            let e = &log[i];
            let line: [Cell; 4] = [
                (e.centers[j], 3),
                (e.levels[j], 3),
                (e.concentration[j], 6),
                (e.gains[j], 6),
            ];
            let ghost before = out@;
            push_row::<N>(&mut out, e.hop, j, line.as_slice());
            proof {
                assert(line@ =~= debug_cells(*e, j as int));
                let row = choose|row: Seq<char>| #[trigger]
                    row_of::<N>(e.hop as nat, j as nat, line@, row) && out@ == before + row;
                lemma_joined_push(rows, row);
                let old_rows = rows;
                rows = rows.push(row);
                assert(out@ =~= debug_csv_header() + joined(rows));
                assert forall|f: int, b: int|
                    0 <= f <= i && 0 <= b < BANDS && (f < i || b < j + 1) implies #[trigger] row_of::<N>(
                    number(f),
                    b as nat,
                    cells(f, b),
                    rows[f * BANDS + b],
                ) by {
                    if f < i || b < j {
                        assert(row_of::<N>(number(f), b as nat, cells(f, b), old_rows[f * BANDS + b]));
                    }
                }
            }
        }
    }
    assert(rows.len() == n * BANDS);
    out
}

} // verus!
