//! Per-column type and width inference: walks the sampled cells of each
//! column, classifies the column as numeric or textual, and computes the
//! display width needed to render every sampled value, floored by the
//! header label's width.

use crate::meta::CsvMeta;
use crate::numeric::{dec_digits, int_digits, is_numeric_token, classify_cell};
use crate::scan::{skip_white_space, spec_cell_address, trim_end, trim_start};
use vstd::arithmetic::div_mod::{lemma_fundamental_div_mod, lemma_mod_bound};
use vstd::arithmetic::mul::lemma_mul_inequality;
use vstd::prelude::*;

verus! {

/// The trimmed content of the cell at row `r`, column `c` of a buffer
/// indexed by the cell-offset table `addr` with `per` offsets per row.
pub open spec fn cell_token(buf: Seq<u8>, addr: Seq<int>, per: int, r: int, c: int) -> Seq<u8> {
    let ci = per * r + c;
    let s0 = addr[ci];
    let e0 = addr[ci + 1] - 1;
    let ts = trim_start(buf, s0, e0);
    let te = trim_end(buf, ts, e0);
    buf.subrange(ts, te)
}

/// How many rows the inference pass visits: the row cap, or every complete
/// row the offset table holds, whichever is smaller.
pub open spec fn stat_rows(addr_len: int, per: int, cap: int) -> int {
    if per <= 0 {
        0
    } else {
        let avail = (addr_len - 1) / per;
        if cap <= avail {
            cap
        } else {
            avail
        }
    }
}

/// A column is numeric when every one of its sampled cells is a numeric
/// token.
pub open spec fn col_numeric(buf: Seq<u8>, addr: Seq<int>, per: int, c: int, rows: int) -> bool
    decreases rows,
{
    if rows <= 0 {
        true
    } else {
        col_numeric(buf, addr, per, c, rows - 1) && is_numeric_token(
            cell_token(buf, addr, per, rows - 1, c),
        )
    }
}

/// Largest integer-part digit count among the column's numeric cells
/// (at least 1).
pub open spec fn col_max_int(buf: Seq<u8>, addr: Seq<int>, per: int, c: int, rows: int) -> int
    decreases rows,
{
    if rows <= 0 {
        1
    } else {
        let m = col_max_int(buf, addr, per, c, rows - 1);
        let t = cell_token(buf, addr, per, rows - 1, c);
        if is_numeric_token(t) && int_digits(t) > m {
            int_digits(t) as int
        } else {
            m
        }
    }
}

/// Largest fractional-part digit count among the column's numeric cells.
pub open spec fn col_max_dec(buf: Seq<u8>, addr: Seq<int>, per: int, c: int, rows: int) -> int
    decreases rows,
{
    if rows <= 0 {
        0
    } else {
        let m = col_max_dec(buf, addr, per, c, rows - 1);
        let t = cell_token(buf, addr, per, rows - 1, c);
        if is_numeric_token(t) && dec_digits(t) > m {
            dec_digits(t) as int
        } else {
            m
        }
    }
}

/// Largest trimmed cell width in the column (at least 1).
pub open spec fn col_max_text(buf: Seq<u8>, addr: Seq<int>, per: int, c: int, rows: int) -> int
    decreases rows,
{
    if rows <= 0 {
        1
    } else {
        let m = col_max_text(buf, addr, per, c, rows - 1);
        let t = cell_token(buf, addr, per, rows - 1, c);
        if t.len() > m {
            t.len() as int
        } else {
            m
        }
    }
}

/// Byte width of a header label.
pub open spec fn header_len(name: Seq<char>) -> int {
    vstd::utf8::encode_utf8(name).len() as int
}

/// Measures a header label's byte width.
pub fn header_byte_len(name: &String) -> (l: usize)
    ensures
        l as int == header_len(name@),
{
    name.as_str().as_bytes().len()
}

/// The display width of a column: the numeric width `max_int + max_dec + 1`
/// when the column is numeric and decimals exist, the integer width when
/// none do, or the raw text width otherwise — always floored by the header
/// label's width.
pub open spec fn col_width(
    buf: Seq<u8>,
    addr: Seq<int>,
    per: int,
    c: int,
    rows: int,
    hlen: int,
) -> int {
    let w = if col_numeric(buf, addr, per, c, rows) {
        if col_max_dec(buf, addr, per, c, rows) > 0 {
            col_max_int(buf, addr, per, c, rows) + col_max_dec(buf, addr, per, c, rows) + 1
        } else {
            col_max_int(buf, addr, per, c, rows)
        }
    } else {
        col_max_text(buf, addr, per, c, rows)
    };
    if w > hlen {
        w
    } else {
        hlen
    }
}

/// Well-formedness of a cell-offset table over a buffer: non-empty,
/// strictly increasing, offsets within the buffer.
pub open spec fn addr_wf(addr: Seq<int>, buf_len: int) -> bool {
    &&& addr.len() >= 1
    &&& forall|k: int, l: int| 0 <= k < l < addr.len() ==> addr[k] < addr[l]
    &&& forall|k: int| 0 <= k < addr.len() ==> 0 <= #[trigger] addr[k] <= buf_len
}

/// Every cell token lies inside the buffer, so its length is at most the
/// buffer's.
pub proof fn lemma_cell_token_len(buf: Seq<u8>, addr: Seq<int>, per: int, r: int, c: int)
    requires
        addr_wf(addr, buf.len() as int),
        per >= 1,
        0 <= c,
        0 <= r,
        per * r + c + 1 < addr.len(),
    ensures
        cell_token(buf, addr, per, r, c).len() <= buf.len(),
{
    let ci = per * r + c;
    assert(0 <= ci < addr.len() - 1);
    let s0 = addr[ci];
    let e0 = addr[ci + 1] - 1;
    assert(addr[ci] < addr[ci + 1]);
    assert(0 <= s0 <= e0 <= buf.len());
    lemma_trims(buf, s0, e0);
}

proof fn lemma_trims(buf: Seq<u8>, s0: int, e0: int)
    requires
        0 <= s0 <= e0 <= buf.len(),
    ensures
        ({
            let ts = trim_start(buf, s0, e0);
            let te = trim_end(buf, ts, e0);
            s0 <= ts <= te <= e0
        }),
    decreases e0 - s0,
{
    let ts = trim_start(buf, s0, e0);
    lemma_trim_start_le(buf, s0, e0);
    lemma_trim_end_ge(buf, ts, e0);
}

proof fn lemma_trim_start_le(buf: Seq<u8>, s0: int, e0: int)
    requires
        s0 <= e0,
    ensures
        s0 <= trim_start(buf, s0, e0) <= e0,
    decreases e0 - s0,
{
    if s0 < e0 && buf[s0] == 32 {
        lemma_trim_start_le(buf, s0 + 1, e0);
    }
}

proof fn lemma_trim_end_ge(buf: Seq<u8>, s0: int, e0: int)
    requires
        s0 <= e0,
    ensures
        s0 <= trim_end(buf, s0, e0) <= e0,
    decreases e0 - s0,
{
    if e0 > s0 && buf[e0 - 1] == 32 {
        lemma_trim_end_ge(buf, s0, e0 - 1);
    }
}

/// Bounds on the per-column measurements, used to rule out arithmetic
/// overflow when combining them into display widths.
pub proof fn lemma_col_bounds(buf: Seq<u8>, addr: Seq<int>, per: int, c: int, rows: int)
    requires
        addr_wf(addr, buf.len() as int),
        per >= 1,
        0 <= c < per,
        rows >= 0,
        per * rows <= addr.len() - 1,
    ensures
        1 <= col_max_int(buf, addr, per, c, rows) <= buf.len() + 1,
        0 <= col_max_dec(buf, addr, per, c, rows) <= buf.len(),
        1 <= col_max_text(buf, addr, per, c, rows) <= buf.len() + 1,
    decreases rows,
{
    if rows > 0 {
        assert(per * (rows - 1) + per == per * rows) by (nonlinear_arith);
        assert(per * (rows - 1) >= 0) by (nonlinear_arith)
            requires
                per >= 1,
                rows >= 1,
        ;
        lemma_col_bounds(buf, addr, per, c, rows - 1);
        let t = cell_token(buf, addr, per, rows - 1, c);
        assert(per * (rows - 1) + c + 1 < addr.len());
        lemma_cell_token_len(buf, addr, per, rows - 1, c);
        crate::numeric::lemma_digit_count_le_len(t.take(crate::numeric::first_dot(t, 0)));
        lemma_first_dot_in_range(t);
        if crate::numeric::first_dot(t, 0) < t.len() {
            crate::numeric::lemma_digit_count_le_len(
                t.subrange(crate::numeric::first_dot(t, 0) + 1, t.len() as int),
            );
        }
    }
}

proof fn lemma_first_dot_in_range(t: Seq<u8>)
    ensures
        0 <= crate::numeric::first_dot(t, 0) <= t.len(),
{
    lemma_first_dot_in_range_rec(t, 0);
}

proof fn lemma_first_dot_in_range_rec(t: Seq<u8>, i: int)
    requires
        0 <= i <= t.len(),
    ensures
        i <= crate::numeric::first_dot(t, i) <= t.len(),
    decreases t.len() - i,
{
    if i < t.len() && t[i] != 46 {
        lemma_first_dot_in_range_rec(t, i + 1);
    }
}

/// The per-column working state of one inference pass over a column range.
pub struct ColStats {
    pub is_num: Vec<bool>,
    pub max_int: Vec<usize>,
    pub max_dec: Vec<usize>,
    pub max_text: Vec<usize>,
}

/// Walks the sampled cells of columns `[start_col, end_col)` over at most
/// `row_cap` rows and accumulates each column's numeric flag and width
/// measurements.
pub fn column_stats(
    buf: &Vec<u8>,
    addr: &Vec<usize>,
    per: usize,
    start_col: usize,
    end_col: usize,
    row_cap: usize,
) -> (r: ColStats)
    requires
        1 <= per,
        start_col <= end_col <= per,
        addr_wf(addr@.map_values(|x: usize| x as int), buf@.len() as int),
    ensures
        ({
            let addrs = addr@.map_values(|x: usize| x as int);
            let nrows = stat_rows(addr@.len() as int, per as int, row_cap as int);
            let ncols = end_col - start_col;
            &&& r.is_num@.len() == ncols
            &&& r.max_int@.len() == ncols
            &&& r.max_dec@.len() == ncols
            &&& r.max_text@.len() == ncols
            &&& forall|k: int|
                0 <= k < ncols ==> r.is_num@[k] == col_numeric(
                    buf@,
                    addrs,
                    per as int,
                    start_col + k,
                    nrows,
                )
            &&& forall|k: int|
                0 <= k < ncols ==> r.max_int@[k] as int == col_max_int(
                    buf@,
                    addrs,
                    per as int,
                    start_col + k,
                    nrows,
                )
            &&& forall|k: int|
                0 <= k < ncols ==> r.max_dec@[k] as int == col_max_dec(
                    buf@,
                    addrs,
                    per as int,
                    start_col + k,
                    nrows,
                )
            &&& forall|k: int|
                0 <= k < ncols ==> r.max_text@[k] as int == col_max_text(
                    buf@,
                    addrs,
                    per as int,
                    start_col + k,
                    nrows,
                )
        }),
{
    let ghost addrs = addr@.map_values(|x: usize| x as int);
    let ncols: usize = end_col - start_col;
    let mut is_num: Vec<bool> = Vec::new();
    let mut max_int: Vec<usize> = Vec::new();
    let mut max_dec: Vec<usize> = Vec::new();
    let mut max_text: Vec<usize> = Vec::new();
    let mut k: usize = 0;
    while k < ncols
        invariant
            k <= ncols,
            is_num@.len() == k,
            max_int@.len() == k,
            max_dec@.len() == k,
            max_text@.len() == k,
            forall|i: int| 0 <= i < k ==> is_num@[i] == true,
            forall|i: int| 0 <= i < k ==> max_int@[i] == 1,
            forall|i: int| 0 <= i < k ==> max_dec@[i] == 0,
            forall|i: int| 0 <= i < k ==> max_text@[i] == 1,
        decreases ncols - k,
    {
        is_num.push(true);
        max_int.push(1);
        max_dec.push(0);
        max_text.push(1);
        k = k + 1;
    }
    let al: usize = addr.len();
    let avail: usize = (al - 1) / per;
    let nrows: usize = if row_cap < avail {
        row_cap
    } else {
        avail
    };
    proof {
        assert(nrows == stat_rows(addr@.len() as int, per as int, row_cap as int));
    }
    let mut r_idx: usize = 0;
    let mut base: usize = 0;
    while r_idx < nrows
        invariant
            r_idx <= nrows,
            al == addr@.len(),
            base == per * r_idx,
            nrows == stat_rows(addr@.len() as int, per as int, row_cap as int),
            nrows <= (addr@.len() - 1) / (per as int),
            1 <= per,
            start_col <= end_col <= per,
            ncols == end_col - start_col,
            addrs == addr@.map_values(|x: usize| x as int),
            addr_wf(addrs, buf@.len() as int),
            is_num@.len() == ncols,
            max_int@.len() == ncols,
            max_dec@.len() == ncols,
            max_text@.len() == ncols,
            forall|i: int|
                0 <= i < ncols ==> is_num@[i] == col_numeric(
                    buf@,
                    addrs,
                    per as int,
                    start_col + i,
                    r_idx as int,
                ),
            forall|i: int|
                0 <= i < ncols ==> max_int@[i] as int == col_max_int(
                    buf@,
                    addrs,
                    per as int,
                    start_col + i,
                    r_idx as int,
                ),
            forall|i: int|
                0 <= i < ncols ==> max_dec@[i] as int == col_max_dec(
                    buf@,
                    addrs,
                    per as int,
                    start_col + i,
                    r_idx as int,
                ),
            forall|i: int|
                0 <= i < ncols ==> max_text@[i] as int == col_max_text(
                    buf@,
                    addrs,
                    per as int,
                    start_col + i,
                    r_idx as int,
                ),
        decreases nrows - r_idx,
    {
        proof {
            let l = addr@.len() as int;
            let p = per as int;
            let avail_i = (l - 1) / p;
            assert(r_idx + 1 <= avail_i);
            lemma_mul_inequality(r_idx as int + 1, avail_i, p);
            lemma_fundamental_div_mod(l - 1, p);
            lemma_mod_bound(l - 1, p);
            assert(p * (r_idx as int + 1) <= l - 1);
            assert(p * (r_idx as int + 1) == p * r_idx as int + p) by (nonlinear_arith);
        }
        let mut c: usize = start_col;
        while c < end_col
            invariant
                start_col <= c <= end_col <= per,
                al == addr@.len(),
                1 <= per,
                ncols == end_col - start_col,
                base == per * r_idx,
                base + per <= addr@.len() - 1,
                addrs == addr@.map_values(|x: usize| x as int),
                addr_wf(addrs, buf@.len() as int),
                is_num@.len() == ncols,
                max_int@.len() == ncols,
                max_dec@.len() == ncols,
                max_text@.len() == ncols,
                forall|i: int|
                    0 <= i < c - start_col ==> is_num@[i] == col_numeric(
                        buf@,
                        addrs,
                        per as int,
                        start_col + i,
                        r_idx as int + 1,
                    ),
                forall|i: int|
                    c - start_col <= i < ncols ==> is_num@[i] == col_numeric(
                        buf@,
                        addrs,
                        per as int,
                        start_col + i,
                        r_idx as int,
                    ),
                forall|i: int|
                    0 <= i < c - start_col ==> max_int@[i] as int == col_max_int(
                        buf@,
                        addrs,
                        per as int,
                        start_col + i,
                        r_idx as int + 1,
                    ),
                forall|i: int|
                    c - start_col <= i < ncols ==> max_int@[i] as int == col_max_int(
                        buf@,
                        addrs,
                        per as int,
                        start_col + i,
                        r_idx as int,
                    ),
                forall|i: int|
                    0 <= i < c - start_col ==> max_dec@[i] as int == col_max_dec(
                        buf@,
                        addrs,
                        per as int,
                        start_col + i,
                        r_idx as int + 1,
                    ),
                forall|i: int|
                    c - start_col <= i < ncols ==> max_dec@[i] as int == col_max_dec(
                        buf@,
                        addrs,
                        per as int,
                        start_col + i,
                        r_idx as int,
                    ),
                forall|i: int|
                    0 <= i < c - start_col ==> max_text@[i] as int == col_max_text(
                        buf@,
                        addrs,
                        per as int,
                        start_col + i,
                        r_idx as int + 1,
                    ),
                forall|i: int|
                    c - start_col <= i < ncols ==> max_text@[i] as int == col_max_text(
                        buf@,
                        addrs,
                        per as int,
                        start_col + i,
                        r_idx as int,
                    ),
            decreases end_col - c,
        {
            let ci: usize = base + c;
            proof {
                assert(ci + 1 <= base + per);
                assert(addrs[ci as int] == addr@[ci as int]);
                assert(addrs[ci as int + 1] == addr@[ci as int + 1]);
                assert(addrs[ci as int] < addrs[ci as int + 1]);
            }
            let s0: usize = addr[ci];
            let e0: usize = addr[ci + 1] - 1;
            let (ts, te) = skip_white_space(buf, s0, e0);
            let ghost t = cell_token(buf@, addrs, per as int, r_idx as int, c as int);
            proof {
                assert(per as int * r_idx as int + c as int == ci as int);
                assert(t == buf@.subrange(ts as int, te as int));
            }
            let (isn, idg, ddg) = classify_cell(buf, ts, te);
            let k2: usize = c - start_col;
            let prev_num = is_num[k2];
            is_num.set(k2, prev_num && isn);
            if isn {
                if idg > max_int[k2] {
                    max_int.set(k2, idg);
                }
                if ddg > max_dec[k2] {
                    max_dec.set(k2, ddg);
                }
            }
            if te - ts > max_text[k2] {
                max_text.set(k2, te - ts);
            }
            proof {
                assert(is_num@[k2 as int] == col_numeric(
                    buf@,
                    addrs,
                    per as int,
                    c as int,
                    r_idx as int + 1,
                ));
                assert(max_int@[k2 as int] as int == col_max_int(
                    buf@,
                    addrs,
                    per as int,
                    c as int,
                    r_idx as int + 1,
                ));
                assert(max_dec@[k2 as int] as int == col_max_dec(
                    buf@,
                    addrs,
                    per as int,
                    c as int,
                    r_idx as int + 1,
                ));
                assert(max_text@[k2 as int] as int == col_max_text(
                    buf@,
                    addrs,
                    per as int,
                    c as int,
                    r_idx as int + 1,
                ));
            }
            c = c + 1;
        }
        r_idx = r_idx + 1;
        base = base + per;
    }
    ColStats { is_num, max_int, max_dec, max_text }
}

/// The inference pass never walks past the offset table: the cell index of
/// the last visited row stays below the table's length.
pub proof fn lemma_stat_rows_bound(addr_len: int, per: int, cap: int)
    requires
        per >= 1,
        addr_len >= 1,
        cap >= 0,
    ensures
        0 <= stat_rows(addr_len, per, cap),
        per * stat_rows(addr_len, per, cap) <= addr_len - 1,
{
    let avail = (addr_len - 1) / per;
    lemma_fundamental_div_mod(addr_len - 1, per);
    lemma_mod_bound(addr_len - 1, per);
    assert(avail >= 0) by (nonlinear_arith)
        requires
            per >= 1,
            per * avail + (addr_len - 1) % per == addr_len - 1,
            0 <= (addr_len - 1) % per < per,
            addr_len >= 1,
    ;
    let n = stat_rows(addr_len, per, cap);
    lemma_mul_inequality(n, avail, per);
    assert(n * per == per * n) by (nonlinear_arith);
    assert(avail * per == per * avail) by (nonlinear_arith);
}

/// Computes every column's final display width over at most 11 sampled
/// rows, and reports whether the sample buffer was empty.
pub fn max_column_width(byte_array: &Vec<u8>, csv_meta: &CsvMeta) -> (r: (bool, Vec<usize>))
    requires
        1 <= csv_meta.total_column < usize::MAX,
        csv_meta.column_name@.len() >= csv_meta.total_column,
        byte_array@.len() <= usize::MAX / 4,
    ensures
        r.0 == (byte_array@.len() == 0),
        r.1@.len() == csv_meta.total_column,
        ({
            let per = csv_meta.total_column + (if csv_meta.is_line_br_13_exist {
                1int
            } else {
                0int
            });
            let addrs = spec_cell_address(byte_array@, csv_meta.delimiter);
            let nrows = stat_rows(addrs.len() as int, per, 11);
            forall|c: int|
                0 <= c < csv_meta.total_column ==> r.1@[c] as int == col_width(
                    byte_array@,
                    addrs,
                    per,
                    c,
                    nrows,
                    header_len(csv_meta.column_name@[c]@),
                )
        }),
{
    let addr = crate::scan::cell_address(byte_array, csv_meta.delimiter);
    let ghost addrs = spec_cell_address(byte_array@, csv_meta.delimiter);
    proof {
        crate::scan::lemma_cell_address_wf(byte_array@, csv_meta.delimiter);
        assert(addr@.map_values(|x: usize| x as int) =~= addrs);
    }
    let extra: usize = if csv_meta.is_line_br_13_exist {
        1
    } else {
        0
    };
    let per: usize = csv_meta.total_column + extra;
    let is_zero_row = byte_array.len() == 0;
    let stats = column_stats(byte_array, &addr, per, 0, csv_meta.total_column, 11);
    let ghost nrows = stat_rows(addrs.len() as int, per as int, 11);
    let mut widths: Vec<usize> = Vec::new();
    let mut c: usize = 0;
    while c < csv_meta.total_column
        invariant
            c <= csv_meta.total_column,
            csv_meta.total_column < usize::MAX,
            csv_meta.column_name@.len() >= csv_meta.total_column,
            byte_array@.len() <= usize::MAX / 4,
            per == csv_meta.total_column + (if csv_meta.is_line_br_13_exist {
                1int
            } else {
                0int
            }),
            1 <= per,
            addrs == spec_cell_address(byte_array@, csv_meta.delimiter),
            addr_wf(addrs, byte_array@.len() as int),
            nrows == stat_rows(addrs.len() as int, per as int, 11),
            stats.is_num@.len() == csv_meta.total_column,
            stats.max_int@.len() == csv_meta.total_column,
            stats.max_dec@.len() == csv_meta.total_column,
            stats.max_text@.len() == csv_meta.total_column,
            forall|i: int|
                0 <= i < csv_meta.total_column ==> stats.is_num@[i] == col_numeric(
                    byte_array@,
                    addrs,
                    per as int,
                    i,
                    nrows,
                ),
            forall|i: int|
                0 <= i < csv_meta.total_column ==> stats.max_int@[i] as int == col_max_int(
                    byte_array@,
                    addrs,
                    per as int,
                    i,
                    nrows,
                ),
            forall|i: int|
                0 <= i < csv_meta.total_column ==> stats.max_dec@[i] as int == col_max_dec(
                    byte_array@,
                    addrs,
                    per as int,
                    i,
                    nrows,
                ),
            forall|i: int|
                0 <= i < csv_meta.total_column ==> stats.max_text@[i] as int == col_max_text(
                    byte_array@,
                    addrs,
                    per as int,
                    i,
                    nrows,
                ),
            widths@.len() == c,
            forall|i: int|
                0 <= i < c ==> widths@[i] as int == col_width(
                    byte_array@,
                    addrs,
                    per as int,
                    i,
                    nrows,
                    header_len(csv_meta.column_name@[i]@),
                ),
        decreases csv_meta.total_column - c,
    {
        proof {
            lemma_stat_rows_bound(addrs.len() as int, per as int, 11);
            lemma_col_bounds(byte_array@, addrs, per as int, c as int, nrows);
        }
        let hl: usize = header_byte_len(&csv_meta.column_name[c]);
        let wnum: usize = if stats.is_num[c] {
            if stats.max_dec[c] > 0 {
                stats.max_int[c] + stats.max_dec[c] + 1
            } else {
                stats.max_int[c]
            }
        } else {
            stats.max_text[c]
        };
        let w: usize = if wnum > hl {
            wnum
        } else {
            hl
        };
        widths.push(w);
        c = c + 1;
    }
    (is_zero_row, widths)
}

} // verus!
