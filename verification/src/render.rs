//! The paginated, alignment-aware table renderer: emits a fixed-width
//! textual table with a 2-space gutter, CRLF line endings, right-aligned
//! numeric cells whose decimal points line up, and left-aligned text cells.

use crate::meta::CsvMeta;
use crate::numeric::first_dot;
use crate::scan::{skip_white_space, spec_cell_address, cell_address};
use crate::stats::{
    addr_wf, cell_token, col_max_dec, col_max_int, col_max_text, col_numeric, col_width,
    column_stats, header_byte_len, header_len, lemma_col_bounds, lemma_stat_rows_bound,
    max_column_width, stat_rows, ColStats,
};
use vstd::arithmetic::div_mod::{lemma_fundamental_div_mod, lemma_mod_bound};
use vstd::arithmetic::mul::lemma_mul_inequality;
use vstd::prelude::*;

verus! {

/// `n` space bytes (none when `n` is not positive).
pub open spec fn spaces(n: int) -> Seq<u8> {
    if n <= 0 {
        Seq::empty()
    } else {
        Seq::new(n as nat, |i: int| 32u8)
    }
}

/// The 2-space separator between columns, also the left margin.
pub open spec fn gutter() -> Seq<u8> {
    seq![32u8, 32u8]
}

/// The line terminator of every rendered line.
pub open spec fn crlf() -> Seq<u8> {
    seq![13u8, 10u8]
}

/// One rendered header label: padded to the column width, flush right for
/// numeric columns and flush left for text columns, then the gutter.
pub open spec fn header_cell(name: Seq<u8>, width: int, is_num: bool) -> Seq<u8> {
    if is_num {
        spaces(width - name.len()) + name + gutter()
    } else {
        name + spaces(width - name.len()) + gutter()
    }
}

/// One rendered data cell: right-aligned when the column is numeric (with
/// independent left, integer and right padding so decimal points line up),
/// left-aligned with trailing padding otherwise, then the gutter.
pub open spec fn data_cell(t: Seq<u8>, width: int, is_num: bool, max_int: int, max_dec: int) -> Seq<
    u8,
> {
    if is_num {
        if max_dec == 0 {
            spaces(width - t.len()) + t + gutter()
        } else {
            let curint = first_dot(t, 0);
            let left = if width - max_int - max_dec - 1 > 0 {
                width - max_int - max_dec - 1
            } else {
                0
            };
            let ispace = if max_int - curint > 0 {
                max_int - curint
            } else {
                0
            };
            let right = if t.len() < width {
                width - t.len() - ispace - left
            } else {
                0
            };
            spaces(left) + spaces(ispace) + t + spaces(right) + gutter()
        }
    } else {
        t + spaces(width - t.len()) + gutter()
    }
}

/// The display width of column `c` in a block scanned over `nrows` rows.
pub open spec fn blk_width(
    buf: Seq<u8>,
    addrs: Seq<int>,
    per: int,
    names: Seq<Seq<char>>,
    nrows: int,
    c: int,
) -> int {
    col_width(buf, addrs, per, c, nrows, header_len(names[c]))
}

/// The rendered header labels of columns `[start, c)`, concatenated.
pub open spec fn header_cells(
    buf: Seq<u8>,
    addrs: Seq<int>,
    per: int,
    names: Seq<Seq<char>>,
    nrows: int,
    start: int,
    c: int,
) -> Seq<u8>
    decreases c - start,
{
    if c <= start {
        Seq::<u8>::empty()
    } else {
        header_cells(buf, addrs, per, names, nrows, start, c - 1) + header_cell(
            vstd::utf8::encode_utf8(names[c - 1]),
            blk_width(buf, addrs, per, names, nrows, c - 1),
            col_numeric(buf, addrs, per, c - 1, nrows),
        )
    }
}

/// The rendered data cells of row `r`, columns `[start, c)`, concatenated.
pub open spec fn data_cells(
    buf: Seq<u8>,
    addrs: Seq<int>,
    per: int,
    names: Seq<Seq<char>>,
    nrows: int,
    r: int,
    start: int,
    c: int,
) -> Seq<u8>
    decreases c - start,
{
    if c <= start {
        Seq::<u8>::empty()
    } else {
        data_cells(buf, addrs, per, names, nrows, r, start, c - 1) + data_cell(
            cell_token(buf, addrs, per, r, c - 1),
            blk_width(buf, addrs, per, names, nrows, c - 1),
            col_numeric(buf, addrs, per, c - 1, nrows),
            col_max_int(buf, addrs, per, c - 1, nrows),
            col_max_dec(buf, addrs, per, c - 1, nrows),
        )
    }
}

/// The rendered data lines of rows `[0, r)`, each with its gutter and CRLF.
pub open spec fn data_rows(
    buf: Seq<u8>,
    addrs: Seq<int>,
    per: int,
    names: Seq<Seq<char>>,
    nrows: int,
    start: int,
    end: int,
    r: int,
) -> Seq<u8>
    decreases r,
{
    if r <= 0 {
        Seq::<u8>::empty()
    } else {
        data_rows(buf, addrs, per, names, nrows, start, end, r - 1) + gutter() + data_cells(
            buf,
            addrs,
            per,
            names,
            nrows,
            r - 1,
            start,
            end,
        ) + crlf()
    }
}

/// One rendered block: the header line for columns `[start, end)` followed
/// by up to `cap` data lines.
pub open spec fn spec_block(
    buf: Seq<u8>,
    meta: CsvMeta,
    start: int,
    end: int,
    cap: int,
) -> Seq<u8> {
    let per = meta.total_column + (if meta.is_line_br_13_exist {
        1int
    } else {
        0int
    });
    let addrs = spec_cell_address(buf, meta.delimiter);
    let nrows = stat_rows(addrs.len() as int, per, cap);
    let names = meta.column_name@.map_values(|s: String| s@);
    gutter() + header_cells(buf, addrs, per, names, nrows, start, end) + crlf() + data_rows(
        buf,
        addrs,
        per,
        names,
        nrows,
        start,
        end,
        nrows,
    )
}

/// Adds two widths, saturating at the machine bound.
pub open spec fn sat_add(a: int, b: int) -> int {
    if a + b > usize::MAX {
        usize::MAX as int
    } else {
        a + b
    }
}

/// The total display width of columns `[0, c)`, saturating.
pub open spec fn sum_widths(
    buf: Seq<u8>,
    addrs: Seq<int>,
    per: int,
    names: Seq<Seq<char>>,
    nrows: int,
    c: int,
) -> int
    decreases c,
{
    if c <= 0 {
        0
    } else {
        sat_add(
            sum_widths(buf, addrs, per, names, nrows, c - 1),
            blk_width(buf, addrs, per, names, nrows, c - 1),
        )
    }
}

/// The column sub-ranges of a very wide table: walking left to right, a
/// block is emitted every time the cumulative width crosses a multiple of
/// 100, and a final block takes the remaining columns.
pub open spec fn wide_blocks(
    buf: Seq<u8>,
    addrs: Seq<int>,
    per: int,
    names: Seq<Seq<char>>,
    nrows: int,
    n: int,
    c: int,
    cw: int,
    tc: int,
    startc: int,
) -> Seq<(int, int)>
    decreases n - c,
{
    if c >= n {
        seq![(startc, n)]
    } else {
        let cw2 = sat_add(cw, blk_width(buf, addrs, per, names, nrows, c));
        if cw2 > 100 * tc {
            seq![(startc, c)] + wide_blocks(buf, addrs, per, names, nrows, n, c + 1, cw2, tc + 1, c)
        } else {
            wide_blocks(buf, addrs, per, names, nrows, n, c + 1, cw2, tc, startc)
        }
    }
}

/// The first column at which the cumulative width exceeds half the total,
/// where a moderately wide table is split in two.
pub open spec fn split_col(
    buf: Seq<u8>,
    addrs: Seq<int>,
    per: int,
    names: Seq<Seq<char>>,
    nrows: int,
    n: int,
    total: int,
    c: int,
    cw: int,
) -> int
    decreases n - c,
{
    if c >= n {
        n
    } else {
        let cw2 = sat_add(cw, blk_width(buf, addrs, per, names, nrows, c));
        if cw2 > total / 2 {
            c
        } else {
            split_col(buf, addrs, per, names, nrows, n, total, c + 1, cw2)
        }
    }
}

/// The first `i` blocks rendered in order, each followed by a line feed.
pub open spec fn render_blocks_upto(
    buf: Seq<u8>,
    meta: CsvMeta,
    blocks: Seq<(int, int)>,
    cap: int,
    i: int,
) -> Seq<u8>
    decreases i,
{
    if i <= 0 {
        Seq::<u8>::empty()
    } else {
        render_blocks_upto(buf, meta, blocks, cap, i - 1) + spec_block(
            buf,
            meta,
            blocks[i - 1].0,
            blocks[i - 1].1,
            cap,
        ) + seq![10u8]
    }
}

/// The full rendered table: a leading blank line, then each block followed
/// by a blank line.  Nothing is rendered for an empty sample buffer or a
/// dialect without columns or header names.
pub open spec fn spec_view(buf: Seq<u8>, meta: CsvMeta) -> Seq<u8> {
    if meta.total_column < 1 || meta.total_column >= usize::MAX || meta.column_name@.len()
        < meta.total_column || buf.len() == 0 {
        Seq::<u8>::empty()
    } else {
        let per = meta.total_column + (if meta.is_line_br_13_exist {
            1int
        } else {
            0int
        });
        let addrs = spec_cell_address(buf, meta.delimiter);
        let nrows11 = stat_rows(addrs.len() as int, per, 11);
        let names = meta.column_name@.map_values(|s: String| s@);
        let n = meta.total_column as int;
        let tw = sum_widths(buf, addrs, per, names, nrows11, n);
        if tw > 150 {
            let blocks = wide_blocks(buf, addrs, per, names, nrows11, n, 0, 0, 1, 0);
            seq![10u8] + render_blocks_upto(buf, meta, blocks, 8, blocks.len() as int)
        } else if tw > 100 {
            let sc = split_col(buf, addrs, per, names, nrows11, n, tw, 0, 0);
            seq![10u8] + spec_block(buf, meta, 0, sc, 8) + seq![10u8] + spec_block(
                buf,
                meta,
                sc,
                n,
                8,
            ) + seq![10u8]
        } else {
            seq![10u8] + spec_block(buf, meta, 0, n, 20) + seq![10u8]
        }
    }
}

/// Appends `n` space bytes.
fn push_spaces(out: &mut Vec<u8>, n: usize)
    ensures
        final(out)@ == old(out)@ + spaces(n as int),
{
    let mut i: usize = 0;
    while i < n
        invariant
            i <= n,
            out@ == old(out)@ + spaces(i as int),
        decreases n - i,
    {
        out.push(32);
        proof {
            assert(old(out)@ + spaces(i as int + 1) =~= (old(out)@ + spaces(i as int)).push(32u8));
        }
        i = i + 1;
    }
}

/// Appends the bytes `buf[ts..te)`.
fn push_range(out: &mut Vec<u8>, buf: &Vec<u8>, ts: usize, te: usize)
    requires
        ts <= te <= buf@.len(),
    ensures
        final(out)@ == old(out)@ + buf@.subrange(ts as int, te as int),
{
    let mut i: usize = ts;
    while i < te
        invariant
            ts <= i <= te <= buf@.len(),
            out@ == old(out)@ + buf@.subrange(ts as int, i as int),
        decreases te - i,
    {
        out.push(buf[i]);
        proof {
            assert(old(out)@ + buf@.subrange(ts as int, i as int + 1) =~= (old(out)@
                + buf@.subrange(ts as int, i as int)).push(buf@[i as int]));
        }
        i = i + 1;
    }
    proof {
        assert(out@ == old(out)@ + buf@.subrange(ts as int, te as int));
    }
}

/// Appends a header label's bytes.
pub(crate) fn push_name(out: &mut Vec<u8>, name: &String)
    ensures
        final(out)@ == old(out)@ + vstd::utf8::encode_utf8(name@),
{
    let s: &[u8] = name.as_str().as_bytes();
    let mut i: usize = 0;
    while i < s.len()
        invariant
            i <= s@.len(),
            s@ == vstd::utf8::encode_utf8(name@),
            out@ == old(out)@ + s@.subrange(0, i as int),
        decreases s@.len() - i,
    {
        let b = s[i];
        out.push(b);
        proof {
            assert(old(out)@ + s@.subrange(0, i as int + 1) =~= (old(out)@ + s@.subrange(
                0,
                i as int,
            )).push(s@[i as int]));
        }
        i = i + 1;
    }
    proof {
        assert(s@.subrange(0, s@.len() as int) =~= s@);
    }
}

/// Computes the byte count before the first decimal point of
/// `buf[ts..te)`.
fn prefix_before_dot(buf: &Vec<u8>, ts: usize, te: usize) -> (r: usize)
    requires
        ts <= te <= buf@.len(),
    ensures
        r as int == first_dot(buf@.subrange(ts as int, te as int), 0),
{
    let ghost t = buf@.subrange(ts as int, te as int);
    let mut j: usize = 0;
    let n: usize = te - ts;
    while j < n && buf[ts + j] != 46
        invariant
            j <= n,
            n == t.len(),
            ts + n == te <= buf@.len(),
            t == buf@.subrange(ts as int, te as int),
            first_dot(t, 0) == first_dot(t, j as int),
        decreases n - j,
    {
        proof {
            assert(t[j as int] == buf@[ts + j]);
        }
        j = j + 1;
    }
    proof {
        if j < n {
            assert(t[j as int] == buf@[ts + j]);
        }
    }
    j
}

/// Appends one rendered data cell for the trimmed span `buf[ts..te)`.
#[verifier::rlimit(60)]
fn push_data_cell(
    out: &mut Vec<u8>,
    buf: &Vec<u8>,
    ts: usize,
    te: usize,
    width: usize,
    is_num: bool,
    max_int: usize,
    max_dec: usize,
)
    requires
        ts <= te <= buf@.len(),
        max_int + max_dec + 2 <= usize::MAX,
    ensures
        final(out)@ == old(out)@ + data_cell(
            buf@.subrange(ts as int, te as int),
            width as int,
            is_num,
            max_int as int,
            max_dec as int,
        ),
{
    let ghost t = buf@.subrange(ts as int, te as int);
    let len: usize = te - ts;
    if is_num {
        if max_dec == 0 {
            if width > len {
                push_spaces(out, width - len);
            }
            push_range(out, buf, ts, te);
            out.push(32);
            out.push(32);
            proof {
                assert(out@ =~= old(out)@ + spaces(width - t.len()) + t + gutter());
                assert(out@ =~= old(out)@ + (spaces(width - t.len()) + t + gutter()));
            }
        } else {
            let curint = prefix_before_dot(buf, ts, te);
            let left: usize = if width > max_int + max_dec + 1 {
                width - max_int - max_dec - 1
            } else {
                0
            };
            let ispace: usize = if max_int > curint {
                max_int - curint
            } else {
                0
            };
            push_spaces(out, left);
            push_spaces(out, ispace);
            push_range(out, buf, ts, te);
            let right: usize = if width > len {
                let r0: usize = width - len;
                let r1: usize = if r0 > ispace {
                    r0 - ispace
                } else {
                    0
                };
                if r1 > left {
                    r1 - left
                } else {
                    0
                }
            } else {
                0
            };
            push_spaces(out, right);
            out.push(32);
            out.push(32);
            proof {
                let left_s = if width - max_int - max_dec - 1 > 0 {
                    width - max_int - max_dec - 1
                } else {
                    0
                };
                let ispace_s = if max_int - curint > 0 {
                    max_int as int - curint
                } else {
                    0
                };
                let right_s: int = if t.len() < width {
                    width - t.len() - ispace_s - left_s
                } else {
                    0
                };
                assert(left as int == left_s);
                assert(ispace as int == ispace_s);
                if right_s > 0 {
                    assert(right as int == right_s);
                } else {
                    assert(right == 0);
                }
                assert(spaces(right as int) == spaces(right_s));
                assert(out@ =~= old(out)@ + spaces(left_s) + spaces(ispace_s) + t + spaces(right_s)
                    + gutter());
                assert(out@ =~= old(out)@ + (spaces(left_s) + spaces(ispace_s) + t + spaces(
                    right_s,
                ) + gutter()));
            }
        }
    } else {
        push_range(out, buf, ts, te);
        if width > len {
            push_spaces(out, width - len);
        }
        out.push(32);
        out.push(32);
        proof {
            assert(out@ =~= old(out)@ + t + spaces(width - t.len()) + gutter());
            assert(out@ =~= old(out)@ + (t + spaces(width - t.len()) + gutter()));
        }
    }
}

/// Ties a `ColStats` value for columns `[start_col, end_col)` to the
/// per-column spec measurements.
pub open spec fn stats_ok(
    stats: ColStats,
    buf: Seq<u8>,
    addrs: Seq<int>,
    per: int,
    start_col: int,
    end_col: int,
    nrows: int,
) -> bool {
    let ncols = end_col - start_col;
    &&& stats.is_num@.len() == ncols
    &&& stats.max_int@.len() == ncols
    &&& stats.max_dec@.len() == ncols
    &&& stats.max_text@.len() == ncols
    &&& forall|k: int|
        0 <= k < ncols ==> stats.is_num@[k] == col_numeric(buf, addrs, per, start_col + k, nrows)
    &&& forall|k: int|
        0 <= k < ncols ==> stats.max_int@[k] as int == col_max_int(
            buf,
            addrs,
            per,
            start_col + k,
            nrows,
        )
    &&& forall|k: int|
        0 <= k < ncols ==> stats.max_dec@[k] as int == col_max_dec(
            buf,
            addrs,
            per,
            start_col + k,
            nrows,
        )
    &&& forall|k: int|
        0 <= k < ncols ==> stats.max_text@[k] as int == col_max_text(
            buf,
            addrs,
            per,
            start_col + k,
            nrows,
        )
}

/// Computes the display widths of one block's columns from its inference
/// pass and the header labels.
fn block_widths(
    csv_meta: &CsvMeta,
    stats: &ColStats,
    start_column: usize,
    end_column: usize,
    Ghost(buf): Ghost<Seq<u8>>,
    Ghost(addrs): Ghost<Seq<int>>,
    Ghost(per): Ghost<int>,
    Ghost(nrows): Ghost<int>,
) -> (w: Vec<usize>)
    requires
        start_column <= end_column <= csv_meta.column_name@.len(),
        end_column <= per,
        per >= 1,
        nrows >= 0,
        buf.len() <= usize::MAX / 4,
        addr_wf(addrs, buf.len() as int),
        per * nrows <= addrs.len() - 1,
        stats_ok(*stats, buf, addrs, per, start_column as int, end_column as int, nrows),
    ensures
        w@.len() == end_column - start_column,
        forall|k: int|
            0 <= k < end_column - start_column ==> w@[k] as int == blk_width(
                buf,
                addrs,
                per,
                csv_meta.column_name@.map_values(|s: String| s@),
                nrows,
                start_column + k,
            ),
{
    let ghost names = csv_meta.column_name@.map_values(|s: String| s@);
    let ncols: usize = end_column - start_column;
    let mut w: Vec<usize> = Vec::new();
    let mut k: usize = 0;
    while k < ncols
        invariant
            k <= ncols,
            ncols == end_column - start_column,
            start_column <= end_column <= csv_meta.column_name@.len(),
            end_column <= per,
            per >= 1,
            nrows >= 0,
            buf.len() <= usize::MAX / 4,
            addr_wf(addrs, buf.len() as int),
            per * nrows <= addrs.len() - 1,
            stats_ok(*stats, buf, addrs, per, start_column as int, end_column as int, nrows),
            names == csv_meta.column_name@.map_values(|s: String| s@),
            w@.len() == k,
            forall|i: int|
                0 <= i < k ==> w@[i] as int == blk_width(
                    buf,
                    addrs,
                    per,
                    names,
                    nrows,
                    start_column + i,
                ),
        decreases ncols - k,
    {
        proof {
            lemma_col_bounds(buf, addrs, per, start_column + k, nrows);
        }
        let hl: usize = header_byte_len(&csv_meta.column_name[start_column + k]);
        let wnum: usize = if stats.is_num[k] {
            if stats.max_dec[k] > 0 {
                stats.max_int[k] + stats.max_dec[k] + 1
            } else {
                stats.max_int[k]
            }
        } else {
            stats.max_text[k]
        };
        let wk: usize = if wnum > hl {
            wnum
        } else {
            hl
        };
        w.push(wk);
        proof {
            assert(names[start_column + k] == csv_meta.column_name@[start_column + k]@);
        }
        k = k + 1;
    }
    w
}

/// Renders one block of the table: the header line for columns
/// `[start_column, end_column)` followed by up to `total_row` data lines,
/// each CRLF-terminated behind a 2-space gutter.
#[verifier::rlimit(60)]
pub fn current_view(
    byte_array: &Vec<u8>,
    csv_meta: &CsvMeta,
    start_column: usize,
    end_column: usize,
    total_row: usize,
) -> (out: Vec<u8>)
    requires
        1 <= csv_meta.total_column < usize::MAX,
        csv_meta.column_name@.len() >= csv_meta.total_column,
        start_column <= end_column <= csv_meta.total_column,
        byte_array@.len() <= usize::MAX / 4,
    ensures
        out@ == spec_block(
            byte_array@,
            *csv_meta,
            start_column as int,
            end_column as int,
            total_row as int,
        ),
{
    let ghost addrs = spec_cell_address(byte_array@, csv_meta.delimiter);
    let ghost names = csv_meta.column_name@.map_values(|s: String| s@);
    let addr = cell_address(byte_array, csv_meta.delimiter);
    proof {
        crate::scan::lemma_cell_address_wf(byte_array@, csv_meta.delimiter);
        assert(addr@.map_values(|x: usize| x as int) =~= addrs);
    }
    let extra: usize = if csv_meta.is_line_br_13_exist {
        1
    } else {
        0
    };
    let per: usize = csv_meta.total_column + extra;
    let stats = column_stats(byte_array, &addr, per, start_column, end_column, total_row);
    let ghost nrows = stat_rows(addrs.len() as int, per as int, total_row as int);
    proof {
        lemma_stat_rows_bound(addrs.len() as int, per as int, total_row as int);
    }
    let widths = block_widths(
        csv_meta,
        &stats,
        start_column,
        end_column,
        Ghost(byte_array@),
        Ghost(addrs),
        Ghost(per as int),
        Ghost(nrows),
    );
    let mut out: Vec<u8> = Vec::new();
    out.push(32);
    out.push(32);
    proof {
        assert(out@ =~= gutter());
    }
    let mut c: usize = start_column;
    while c < end_column
        invariant
            start_column <= c <= end_column <= csv_meta.total_column,
            csv_meta.column_name@.len() >= csv_meta.total_column,
            per == csv_meta.total_column + (if csv_meta.is_line_br_13_exist {
                1int
            } else {
                0int
            }),
            addrs == spec_cell_address(byte_array@, csv_meta.delimiter),
            names == csv_meta.column_name@.map_values(|s: String| s@),
            nrows == stat_rows(addrs.len() as int, per as int, total_row as int),
            stats_ok(
                stats,
                byte_array@,
                addrs,
                per as int,
                start_column as int,
                end_column as int,
                nrows,
            ),
            widths@.len() == end_column - start_column,
            forall|i: int|
                0 <= i < end_column - start_column ==> widths@[i] as int == blk_width(
                    byte_array@,
                    addrs,
                    per as int,
                    names,
                    nrows,
                    start_column + i,
                ),
            out@ == gutter() + header_cells(
                byte_array@,
                addrs,
                per as int,
                names,
                nrows,
                start_column as int,
                c as int,
            ),
        decreases end_column - c,
    {
        let k: usize = c - start_column;
        let w: usize = widths[k];
        let isn: bool = stats.is_num[k];
        let hl: usize = header_byte_len(&csv_meta.column_name[c]);
        let ghost out_before = out@;
        let ghost nb = vstd::utf8::encode_utf8(names[c as int]);
        proof {
            assert(names[c as int] == csv_meta.column_name@[c as int]@);
        }
        if isn {
            if w > hl {
                push_spaces(&mut out, w - hl);
            }
            push_name(&mut out, &csv_meta.column_name[c]);
            out.push(32);
            out.push(32);
            proof {
                assert(out@ =~= out_before + spaces(w - nb.len()) + nb + gutter());
                assert(out@ =~= out_before + header_cell(
                    nb,
                    w as int,
                    col_numeric(byte_array@, addrs, per as int, c as int, nrows),
                ));
            }
        } else {
            push_name(&mut out, &csv_meta.column_name[c]);
            if w > hl {
                push_spaces(&mut out, w - hl);
            }
            out.push(32);
            out.push(32);
            proof {
                assert(out@ =~= out_before + nb + spaces(w - nb.len()) + gutter());
                assert(out@ =~= out_before + header_cell(
                    nb,
                    w as int,
                    col_numeric(byte_array@, addrs, per as int, c as int, nrows),
                ));
            }
        }
        proof {
            assert(out@ =~= gutter() + header_cells(
                byte_array@,
                addrs,
                per as int,
                names,
                nrows,
                start_column as int,
                c as int + 1,
            ));
        }
        c = c + 1;
    }
    out.push(13);
    out.push(10);
    let ghost header_part = gutter() + header_cells(
        byte_array@,
        addrs,
        per as int,
        names,
        nrows,
        start_column as int,
        end_column as int,
    ) + crlf();
    proof {
        assert(out@ =~= header_part);
    }
    let al: usize = addr.len();
    let avail: usize = (al - 1) / per;
    let nrows_e: usize = if total_row < avail {
        total_row
    } else {
        avail
    };
    proof {
        assert(nrows_e as int == nrows);
    }
    let mut r: usize = 0;
    let mut base: usize = 0;
    while r < nrows_e
        invariant
            r <= nrows_e,
            al == addr@.len(),
            base == per * r,
            nrows_e as int == nrows,
            nrows == stat_rows(addrs.len() as int, per as int, total_row as int),
            nrows >= 0,
            per * nrows <= addrs.len() - 1,
            1 <= per,
            start_column <= end_column <= csv_meta.total_column,
            end_column <= per,
            csv_meta.column_name@.len() >= csv_meta.total_column,
            byte_array@.len() <= usize::MAX / 4,
            addrs == spec_cell_address(byte_array@, csv_meta.delimiter),
            addr@.map_values(|x: usize| x as int) == addrs,
            addr_wf(addrs, byte_array@.len() as int),
            names == csv_meta.column_name@.map_values(|s: String| s@),
            stats_ok(
                stats,
                byte_array@,
                addrs,
                per as int,
                start_column as int,
                end_column as int,
                nrows,
            ),
            widths@.len() == end_column - start_column,
            forall|i: int|
                0 <= i < end_column - start_column ==> widths@[i] as int == blk_width(
                    byte_array@,
                    addrs,
                    per as int,
                    names,
                    nrows,
                    start_column + i,
                ),
            out@ == header_part + data_rows(
                byte_array@,
                addrs,
                per as int,
                names,
                nrows,
                start_column as int,
                end_column as int,
                r as int,
            ),
        decreases nrows_e - r,
    {
        proof {
            let l = addr@.len() as int;
            let p = per as int;
            let avail_i = (l - 1) / p;
            assert(r + 1 <= avail_i);
            lemma_mul_inequality(r as int + 1, avail_i, p);
            lemma_fundamental_div_mod(l - 1, p);
            lemma_mod_bound(l - 1, p);
            assert(p * (r as int + 1) <= l - 1);
            assert(p * (r as int + 1) == p * r as int + p) by (nonlinear_arith);
        }
        let ghost row_start = out@;
        out.push(32);
        out.push(32);
        let mut c2: usize = start_column;
        while c2 < end_column
            invariant
                start_column <= c2 <= end_column <= csv_meta.total_column,
                al == addr@.len(),
                base == per * r,
                base + per <= addr@.len() - 1,
                1 <= per,
                end_column <= per,
                nrows >= 0,
                per * nrows <= addrs.len() - 1,
                csv_meta.column_name@.len() >= csv_meta.total_column,
                byte_array@.len() <= usize::MAX / 4,
                addrs == spec_cell_address(byte_array@, csv_meta.delimiter),
                addr@.map_values(|x: usize| x as int) == addrs,
                addr_wf(addrs, byte_array@.len() as int),
                names == csv_meta.column_name@.map_values(|s: String| s@),
                stats_ok(
                    stats,
                    byte_array@,
                    addrs,
                    per as int,
                    start_column as int,
                    end_column as int,
                    nrows,
                ),
                widths@.len() == end_column - start_column,
                forall|i: int|
                    0 <= i < end_column - start_column ==> widths@[i] as int == blk_width(
                        byte_array@,
                        addrs,
                        per as int,
                        names,
                        nrows,
                        start_column + i,
                    ),
                out@ == row_start + gutter() + data_cells(
                    byte_array@,
                    addrs,
                    per as int,
                    names,
                    nrows,
                    r as int,
                    start_column as int,
                    c2 as int,
                ),
            decreases end_column - c2,
        {
            let ci: usize = base + c2;
            proof {
                assert(ci + 1 <= base + per);
                assert(addrs[ci as int] == addr@[ci as int]);
                assert(addrs[ci as int + 1] == addr@[ci as int + 1]);
                assert(addrs[ci as int] < addrs[ci as int + 1]);
            }
            let s0: usize = addr[ci];
            let e0: usize = addr[ci + 1] - 1;
            let (ts, te) = skip_white_space(byte_array, s0, e0);
            let k: usize = c2 - start_column;
            let ghost t = cell_token(byte_array@, addrs, per as int, r as int, c2 as int);
            proof {
                assert(per as int * r as int + c2 as int == ci as int);
                assert(t == byte_array@.subrange(ts as int, te as int));
                lemma_col_bounds(byte_array@, addrs, per as int, c2 as int, nrows);
            }
            let ghost cell_before = out@;
            push_data_cell(
                &mut out,
                byte_array,
                ts,
                te,
                widths[k],
                stats.is_num[k],
                stats.max_int[k],
                stats.max_dec[k],
            );
            proof {
                assert(out@ =~= row_start + gutter() + data_cells(
                    byte_array@,
                    addrs,
                    per as int,
                    names,
                    nrows,
                    r as int,
                    start_column as int,
                    c2 as int + 1,
                ));
            }
            c2 = c2 + 1;
        }
        out.push(13);
        out.push(10);
        proof {
            assert(out@ =~= header_part + data_rows(
                byte_array@,
                addrs,
                per as int,
                names,
                nrows,
                start_column as int,
                end_column as int,
                r as int + 1,
            ));
        }
        r = r + 1;
        base = base + per;
    }
    proof {
        assert(out@ =~= spec_block(
            byte_array@,
            *csv_meta,
            start_column as int,
            end_column as int,
            total_row as int,
        ));
    }
    out
}

/// Appends all bytes of `other`.
pub(crate) fn append_bytes(out: &mut Vec<u8>, other: &Vec<u8>)
    ensures
        final(out)@ == old(out)@ + other@,
{
    push_range(out, other, 0, other.len());
    proof {
        assert(other@.subrange(0, other@.len() as int) =~= other@);
    }
}

/// Renders the whole table behind its pagination policy: a single block of
/// up to 20 rows for narrow tables; two blocks of up to 8 rows when the
/// total width exceeds 100; blocks cut near every multiple of 100 when it
/// exceeds 150.  Returns the bytes written to the output stream; an empty
/// sample buffer or a dialect without columns renders nothing.
#[verifier::rlimit(60)]
pub fn view_csv(byte_array: &Vec<u8>, csv_meta: &CsvMeta) -> (out: Vec<u8>)
    requires
        byte_array@.len() <= usize::MAX / 4,
    ensures
        out@ == spec_view(byte_array@, *csv_meta),
{
    if csv_meta.total_column < 1 || csv_meta.total_column >= usize::MAX || csv_meta.column_name.len()
        < csv_meta.total_column {
        let r: Vec<u8> = Vec::new();
        proof {
            assert(r@ =~= spec_view(byte_array@, *csv_meta));
        }
        return r;
    }
    let (is_zero_row, widths) = max_column_width(byte_array, csv_meta);
    if is_zero_row {
        let r: Vec<u8> = Vec::new();
        proof {
            assert(r@ =~= spec_view(byte_array@, *csv_meta));
        }
        return r;
    }
    let ghost addrs = spec_cell_address(byte_array@, csv_meta.delimiter);
    let ghost per = csv_meta.total_column + (if csv_meta.is_line_br_13_exist {
        1int
    } else {
        0int
    });
    let ghost nrows11 = stat_rows(addrs.len() as int, per, 11);
    let ghost names = csv_meta.column_name@.map_values(|s: String| s@);
    let n: usize = csv_meta.total_column;
    let mut tw: usize = 0;
    let mut c: usize = 0;
    while c < n
        invariant
            c <= n,
            n == csv_meta.total_column,
            widths@.len() == n,
            addrs == spec_cell_address(byte_array@, csv_meta.delimiter),
            names == csv_meta.column_name@.map_values(|s: String| s@),
            per == csv_meta.total_column + (if csv_meta.is_line_br_13_exist {
                1int
            } else {
                0int
            }),
            nrows11 == stat_rows(addrs.len() as int, per, 11),
            forall|i: int|
                0 <= i < n ==> widths@[i] as int == blk_width(
                    byte_array@,
                    addrs,
                    per,
                    names,
                    nrows11,
                    i,
                ),
            tw as int == sum_widths(byte_array@, addrs, per, names, nrows11, c as int),
        decreases n - c,
    {
        let w = widths[c];
        tw = if w > usize::MAX - tw {
            usize::MAX
        } else {
            tw + w
        };
        c = c + 1;
    }
    let mut out: Vec<u8> = Vec::new();
    out.push(10);
    proof {
        assert(out@ =~= seq![10u8]);
    }
    if tw > 150 {
        let ghost full = wide_blocks(byte_array@, addrs, per, names, nrows11, n as int, 0, 0, 1, 0);
        let mut blocks: Vec<(usize, usize)> = Vec::new();
        let mut cw: usize = 0;
        let mut tc: usize = 1;
        let mut startc: usize = 0;
        let mut c2: usize = 0;
        proof {
            assert(blocks@.map_values(|b: (usize, usize)| (b.0 as int, b.1 as int)) =~= Seq::<(
                int,
                int,
            )>::empty());
        }
        while c2 < n
            invariant
                c2 <= n,
                startc <= c2,
                tc >= 1,
                n == csv_meta.total_column,
                widths@.len() == n,
                addrs == spec_cell_address(byte_array@, csv_meta.delimiter),
                names == csv_meta.column_name@.map_values(|s: String| s@),
                per == csv_meta.total_column + (if csv_meta.is_line_br_13_exist {
                    1int
                } else {
                    0int
                }),
                nrows11 == stat_rows(addrs.len() as int, per, 11),
                forall|i: int|
                    0 <= i < n ==> widths@[i] as int == blk_width(
                        byte_array@,
                        addrs,
                        per,
                        names,
                        nrows11,
                        i,
                    ),
                full == blocks@.map_values(|b: (usize, usize)| (b.0 as int, b.1 as int))
                    + wide_blocks(
                    byte_array@,
                    addrs,
                    per,
                    names,
                    nrows11,
                    n as int,
                    c2 as int,
                    cw as int,
                    tc as int,
                    startc as int,
                ),
                forall|i: int|
                    0 <= i < blocks@.len() ==> 0 <= (#[trigger] blocks@[i]).0 <= blocks@[i].1 <= n,
            decreases n - c2,
        {
            let w = widths[c2];
            let cw2: usize = if w > usize::MAX - cw {
                usize::MAX
            } else {
                cw + w
            };
            let crossed: bool = tc <= usize::MAX / 100 && cw2 > tc * 100;
            proof {
                let q = usize::MAX as int / 100;
                lemma_fundamental_div_mod(usize::MAX as int, 100);
                lemma_mod_bound(usize::MAX as int, 100);
                if tc <= q {
                    lemma_mul_inequality(tc as int, q, 100);
                    assert(tc as int * 100 == 100 * tc as int) by (nonlinear_arith);
                    assert(q * 100 == 100 * q) by (nonlinear_arith);
                } else {
                    assert(100 * (q + 1) <= 100 * tc as int) by (nonlinear_arith)
                        requires
                            q + 1 <= tc as int,
                    ;
                }
                assert(crossed == (cw2 as int > 100 * tc as int));
            }
            let ghost blocks0 = blocks@.map_values(|b: (usize, usize)| (b.0 as int, b.1 as int));
            if crossed {
                blocks.push((startc, c2));
                proof {
                    assert(blocks@.map_values(|b: (usize, usize)| (b.0 as int, b.1 as int))
                        =~= blocks0.push((startc as int, c2 as int)));
                }
                startc = c2;
                tc = tc + 1;
            }
            cw = cw2;
            c2 = c2 + 1;
        }
        let nb: usize = blocks.len();
        proof {
            assert(full == blocks@.map_values(|b: (usize, usize)| (b.0 as int, b.1 as int))
                + seq![(startc as int, n as int)]);
            assert(full.len() == nb + 1);
        }
        let mut i: usize = 0;
        while i < nb
            invariant
                i <= nb,
                nb == blocks@.len(),
                1 <= csv_meta.total_column < usize::MAX,
                csv_meta.column_name@.len() >= csv_meta.total_column,
                byte_array@.len() <= usize::MAX / 4,
                n == csv_meta.total_column,
                startc <= n,
                full == blocks@.map_values(|b: (usize, usize)| (b.0 as int, b.1 as int))
                    + seq![(startc as int, n as int)],
                forall|k: int|
                    0 <= k < blocks@.len() ==> 0 <= (#[trigger] blocks@[k]).0 <= blocks@[k].1 <= n,
                out@ == seq![10u8] + render_blocks_upto(byte_array@, *csv_meta, full, 8, i as int),
            decreases nb - i,
        {
            let b = blocks[i];
            let blk = current_view(byte_array, csv_meta, b.0, b.1, 8);
            append_bytes(&mut out, &blk);
            out.push(10);
            proof {
                assert(full[i as int] == (b.0 as int, b.1 as int));
                assert(out@ =~= seq![10u8] + render_blocks_upto(
                    byte_array@,
                    *csv_meta,
                    full,
                    8,
                    i as int + 1,
                ));
            }
            i = i + 1;
        }
        let blk = current_view(byte_array, csv_meta, startc, n, 8);
        append_bytes(&mut out, &blk);
        out.push(10);
        proof {
            assert(full[nb as int] == (startc as int, n as int));
            assert(out@ =~= seq![10u8] + render_blocks_upto(
                byte_array@,
                *csv_meta,
                full,
                8,
                nb as int + 1,
            ));
            assert(out@ =~= spec_view(byte_array@, *csv_meta));
        }
    } else if tw > 100 {
        let mut cw: usize = 0;
        let mut c2: usize = 0;
        let mut sc: usize = n;
        let mut found: bool = false;
        while c2 < n && !found
            invariant
                c2 <= n,
                n == csv_meta.total_column,
                widths@.len() == n,
                addrs == spec_cell_address(byte_array@, csv_meta.delimiter),
                names == csv_meta.column_name@.map_values(|s: String| s@),
                per == csv_meta.total_column + (if csv_meta.is_line_br_13_exist {
                    1int
                } else {
                    0int
                }),
                nrows11 == stat_rows(addrs.len() as int, per, 11),
                forall|i: int|
                    0 <= i < n ==> widths@[i] as int == blk_width(
                        byte_array@,
                        addrs,
                        per,
                        names,
                        nrows11,
                        i,
                    ),
                !found ==> sc == n && split_col(
                    byte_array@,
                    addrs,
                    per,
                    names,
                    nrows11,
                    n as int,
                    tw as int,
                    0,
                    0,
                ) == split_col(
                    byte_array@,
                    addrs,
                    per,
                    names,
                    nrows11,
                    n as int,
                    tw as int,
                    c2 as int,
                    cw as int,
                ),
                found ==> sc as int == split_col(
                    byte_array@,
                    addrs,
                    per,
                    names,
                    nrows11,
                    n as int,
                    tw as int,
                    0,
                    0,
                ) && sc <= n,
            decreases n - c2, (if found {
                0int
            } else {
                1int
            }),
        {
            let w = widths[c2];
            let cw2: usize = if w > usize::MAX - cw {
                usize::MAX
            } else {
                cw + w
            };
            if cw2 > tw / 2 {
                sc = c2;
                found = true;
            } else {
                cw = cw2;
                c2 = c2 + 1;
            }
        }
        let b1 = current_view(byte_array, csv_meta, 0, sc, 8);
        append_bytes(&mut out, &b1);
        out.push(10);
        let b2 = current_view(byte_array, csv_meta, sc, n, 8);
        append_bytes(&mut out, &b2);
        out.push(10);
        proof {
            assert(out@ =~= spec_view(byte_array@, *csv_meta));
        }
    } else {
        let b = current_view(byte_array, csv_meta, 0, n, 20);
        append_bytes(&mut out, &b);
        out.push(10);
        proof {
            assert(out@ =~= spec_view(byte_array@, *csv_meta));
        }
    }
    out
}

} // verus!
