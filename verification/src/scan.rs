//! Byte-level scanning utilities shared by the dialect sampler, the cell
//! indexer and the renderer: whitespace trimming, per-row byte histograms,
//! and the quote-aware row locator.

use vstd::prelude::*;

verus! {

/// First index in `[start, end)` that does not hold a space byte, walking
/// from the left.
pub open spec fn trim_start(s: Seq<u8>, start: int, end: int) -> int
    decreases end - start,
{
    if start < end && s[start] == 32 {
        trim_start(s, start + 1, end)
    } else {
        start
    }
}

/// Last bound in `(start, end]` such that every byte at or beyond it is a
/// space byte, walking from the right.
pub open spec fn trim_end(s: Seq<u8>, start: int, end: int) -> int
    decreases end - start,
{
    if end > start && s[end - 1] == 32 {
        trim_end(s, start, end - 1)
    } else {
        end
    }
}

/// Shrinks a cell span to its content, dropping leading and trailing space
/// bytes: the left edge moves first, then the right edge.
pub fn skip_white_space(byte_array: &Vec<u8>, start_byte: usize, end_byte: usize) -> (r: (
    usize,
    usize,
))
    requires
        start_byte <= end_byte <= byte_array@.len(),
    ensures
        r.0 == trim_start(byte_array@, start_byte as int, end_byte as int),
        r.1 == trim_end(byte_array@, r.0 as int, end_byte as int),
        start_byte <= r.0 <= r.1 <= end_byte,
{
    let mut start: usize = start_byte;
    while start < end_byte && byte_array[start] == 32
        invariant
            start_byte <= start <= end_byte <= byte_array@.len(),
            trim_start(byte_array@, start_byte as int, end_byte as int) == trim_start(
                byte_array@,
                start as int,
                end_byte as int,
            ),
        decreases end_byte - start,
    {
        start = start + 1;
    }
    let mut end: usize = end_byte;
    while end > start && byte_array[end - 1] == 32
        invariant
            start <= end <= end_byte <= byte_array@.len(),
            trim_end(byte_array@, start as int, end_byte as int) == trim_end(
                byte_array@,
                start as int,
                end as int,
            ),
        decreases end,
    {
        end = end - 1;
    }
    (start, end)
}

/// Number of occurrences of the byte `b` in `s`.
pub open spec fn count_byte(s: Seq<u8>, b: u8) -> nat
    decreases s.len(),
{
    if s.len() == 0 {
        0
    } else {
        count_byte(s.drop_last(), b) + (if s.last() == b {
            1nat
        } else {
            0nat
        })
    }
}

pub proof fn lemma_count_byte_le_len(s: Seq<u8>, b: u8)
    ensures
        count_byte(s, b) <= s.len(),
    decreases s.len(),
{
    if s.len() > 0 {
        lemma_count_byte_le_len(s.drop_last(), b);
    }
}

proof fn lemma_count_take_step(s: Seq<u8>, i: int, b: u8)
    requires
        0 <= i < s.len(),
    ensures
        count_byte(s.take(i + 1), b) == count_byte(s.take(i), b) + (if s[i] == b {
            1nat
        } else {
            0nat
        }),
{
    assert(s.take(i + 1).drop_last() =~= s.take(i));
    assert(s.take(i + 1).last() == s[i]);
}

/// Builds the byte-frequency distribution of one row: a 256-entry table
/// mapping each byte value to its occurrence count.
pub fn get_byte_array_frequency_distribution(byte_array: &Vec<u8>) -> (freq: Vec<usize>)
    ensures
        freq@.len() == 256,
        forall|v: int| 0 <= v < 256 ==> freq@[v] == count_byte(byte_array@, v as u8),
{
    let mut freq: Vec<usize> = Vec::new();
    let mut k: usize = 0;
    while k < 256
        invariant
            k <= 256,
            freq@.len() == k,
            forall|v: int| 0 <= v < k ==> freq@[v] == 0,
        decreases 256 - k,
    {
        freq.push(0);
        k = k + 1;
    }
    let mut i: usize = 0;
    while i < byte_array.len()
        invariant
            i <= byte_array@.len(),
            freq@.len() == 256,
            forall|v: int| 0 <= v < 256 ==> freq@[v] == count_byte(byte_array@.take(i as int), v as u8),
        decreases byte_array@.len() - i,
    {
        let b = byte_array[i];
        proof {
            lemma_count_take_step(byte_array@, i as int, b);
            lemma_count_byte_le_len(byte_array@.take(i as int), b);
            assert forall|v: int|
                0 <= v < 256 && v != b as int implies #[trigger] count_byte(
                byte_array@.take(i as int + 1),
                v as u8,
            ) == count_byte(byte_array@.take(i as int), v as u8) by {
                lemma_count_take_step(byte_array@, i as int, v as u8);
            }
        }
        let c = freq[b as usize];
        freq.set(b as usize, c + 1);
        i = i + 1;
    }
    proof {
        assert(byte_array@.take(byte_array@.len() as int) =~= byte_array@);
    }
    freq
}

/// One quote-aware scan for a complete logical row, mirroring the window
/// scanner: bytes before the first line feed are skipped unless the scan
/// starts at the head of the file, quote-pairing drops properly quoted
/// spans, and the scan completes at the second line feed observed.
/// Returns whether a complete row was found, and the accumulated row bytes.
pub open spec fn scan_row(w: Seq<u8>, i: int, first: bool, row: Seq<u8>, dq: int) -> (bool, Seq<u8>)
    decreases w.len() - i,
{
    if i < 0 || i >= w.len() {
        (false, row)
    } else {
        let b = w[i];
        let second = first && b == 10;
        let first2 = first || b == 10;
        let keep = first2 && !(row.len() == 0 && b == 10);
        let dq2 = if keep && b == 34 {
            dq + 1
        } else {
            dq
        };
        let row2 = if keep && dq2 % 2 == 0 {
            row.push(b)
        } else {
            row
        };
        if second {
            (true, row2)
        } else {
            scan_row(w, i + 1, first2, row2, dq2)
        }
    }
}

/// The read window the row locator is allowed to inspect: at most 10,000
/// bytes starting at `start`.
pub open spec fn row_window(data: Seq<u8>, start: int) -> Seq<u8> {
    data.subrange(
        start,
        if start + 10000 <= data.len() {
            start + 10000
        } else {
            data.len() as int
        },
    )
}

/// The row the locator isolates at `start`, if a complete non-empty row
/// lies within the byte cap.
pub open spec fn spec_locate_row(data: Seq<u8>, start: int, at_start: bool) -> Option<Seq<u8>> {
    let r = scan_row(row_window(data, start), 0, at_start, Seq::empty(), 0);
    if r.0 && r.1.len() > 0 {
        Some(r.1)
    } else {
        None
    }
}

/// Isolates one complete, non-empty logical row starting at `start_byte`,
/// within a capped read window.  When `at_start` is false the scan first
/// skips to the byte after the next line feed, so the returned row is never
/// a tail fragment of a preceding row.  Returns `None` when the window is
/// exhausted before a complete row appears.
pub fn locate_row(data: &Vec<u8>, start_byte: usize, at_start: bool) -> (r: Option<Vec<u8>>)
    requires
        start_byte <= data@.len(),
    ensures
        match r {
            Some(row) => spec_locate_row(data@, start_byte as int, at_start) == Some(row@),
            None => spec_locate_row(data@, start_byte as int, at_start) is None,
        },
{
    let wlen: usize = if data.len() - start_byte < 10000 {
        data.len() - start_byte
    } else {
        10000
    };
    let ghost w = row_window(data@, start_byte as int);
    proof {
        assert(w.len() == wlen);
    }
    let mut i: usize = 0;
    let mut first = at_start;
    let mut row: Vec<u8> = Vec::new();
    let mut dq: usize = 0;
    let mut complete = false;
    while i < wlen && !complete
        invariant
            i <= wlen,
            start_byte + wlen <= data@.len(),
            data@.len() <= usize::MAX,
            w == row_window(data@, start_byte as int),
            w.len() == wlen,
            dq <= i,
            !complete ==> scan_row(w, 0, at_start, Seq::empty(), 0) == scan_row(
                w,
                i as int,
                first,
                row@,
                dq as int,
            ),
            complete ==> scan_row(w, 0, at_start, Seq::empty(), 0) == (true, row@),
        decreases wlen - i, (if complete { 0int } else { 1int }),
    {
        let b = data[start_byte + i];
        proof {
            assert(w[i as int] == data@[start_byte + i]);
        }
        let ghost row0 = row@;
        let ghost dq0 = dq as int;
        let second = first && b == 10;
        let first2 = first || b == 10;
        let keep = first2 && !(row.len() == 0 && b == 10);
        if keep && b == 34 {
            dq = dq + 1;
        }
        if keep && dq % 2 == 0 {
            row.push(b);
        }
        proof {
            assert(scan_row(w, i as int, first, row0, dq0) == (if second {
                (true, row@)
            } else {
                scan_row(w, i as int + 1, first2, row@, dq as int)
            }));
        }
        first = first2;
        if second {
            complete = true;
        } else {
            i = i + 1;
        }
    }
    if complete && row.len() > 0 {
        Some(row)
    } else {
        None
    }
}

/// The running cell-offset accumulation of the cell indexer: each surviving
/// delimiter byte and each terminator byte appends the offset just past it,
/// quote bytes toggle parity, and a line feed resets the parity for the
/// next row.
pub open spec fn cell_address_rec(buf: Seq<u8>, delim: u8, i: int, acc: Seq<int>, dq: int) -> Seq<
    int,
>
    decreases buf.len() - i,
{
    if i < 0 || i >= buf.len() {
        acc
    } else {
        let b = buf[i];
        if b == delim && dq % 2 == 0 {
            cell_address_rec(buf, delim, i + 1, acc.push(i + 1), dq)
        } else if b == delim {
            cell_address_rec(buf, delim, i + 1, acc, dq)
        } else if b == 10 {
            cell_address_rec(buf, delim, i + 1, acc.push(i + 1), 0)
        } else if b == 13 {
            cell_address_rec(buf, delim, i + 1, acc.push(i + 1), dq)
        } else if b == 34 {
            cell_address_rec(buf, delim, i + 1, acc, dq + 1)
        } else {
            cell_address_rec(buf, delim, i + 1, acc, dq)
        }
    }
}

/// The full cell-offset table of a buffer under a given delimiter,
/// starting from offset 0.
pub open spec fn spec_cell_address(buf: Seq<u8>, delim: u8) -> Seq<int> {
    cell_address_rec(buf, delim, 0, seq![0], 0)
}

proof fn lemma_cell_address_rec_sorted(buf: Seq<u8>, delim: u8, i: int, acc: Seq<int>, dq: int)
    requires
        0 <= i <= buf.len(),
        acc.len() > 0,
        forall|k: int, l: int| 0 <= k < l < acc.len() ==> acc[k] < acc[l],
        forall|k: int| 0 <= k < acc.len() ==> 0 <= #[trigger] acc[k] <= i,
    ensures
        ({
            let r = cell_address_rec(buf, delim, i, acc, dq);
            &&& r.len() >= acc.len()
            &&& r.take(acc.len() as int) == acc
            &&& forall|k: int, l: int| 0 <= k < l < r.len() ==> r[k] < r[l]
            &&& forall|k: int| 0 <= k < r.len() ==> 0 <= #[trigger] r[k] <= buf.len()
        }),
    decreases buf.len() - i,
{
    if i < buf.len() {
        let b = buf[i];
        if (b == delim && dq % 2 == 0) || (b != delim && (b == 10 || b == 13)) {
            let acc2 = acc.push(i + 1);
            let dq2: int = if b != delim && b == 10 {
                0
            } else {
                dq
            };
            lemma_cell_address_rec_sorted(buf, delim, i + 1, acc2, dq2);
            let r = cell_address_rec(buf, delim, i, acc, dq);
            assert(r.take(acc2.len() as int).take(acc.len() as int) =~= r.take(acc.len() as int));
            assert(acc2.take(acc.len() as int) =~= acc);
        } else if b == delim {
            lemma_cell_address_rec_sorted(buf, delim, i + 1, acc, dq);
        } else if b == 34 {
            lemma_cell_address_rec_sorted(buf, delim, i + 1, acc, dq + 1);
        } else {
            lemma_cell_address_rec_sorted(buf, delim, i + 1, acc, dq);
        }
    } else {
        assert(cell_address_rec(buf, delim, i, acc, dq).take(acc.len() as int) =~= acc);
    }
}

/// The cell-offset table starts at 0, is strictly increasing, and every
/// offset lies within the buffer.
pub proof fn lemma_cell_address_wf(buf: Seq<u8>, delim: u8)
    ensures
        ({
            let r = spec_cell_address(buf, delim);
            &&& r.len() >= 1
            &&& r[0] == 0
            &&& forall|k: int, l: int| 0 <= k < l < r.len() ==> r[k] < r[l]
            &&& forall|k: int| 0 <= k < r.len() ==> 0 <= #[trigger] r[k] <= buf.len()
        }),
{
    lemma_cell_address_rec_sorted(buf, delim, 0, seq![0], 0);
    let r = spec_cell_address(buf, delim);
    assert(r.take(1)[0] == 0);
}

/// Indexes every cell and row boundary of the sample buffer: returns the
/// ordered offsets delimiting each cell, starting at offset 0.
pub fn cell_address(byte_array: &Vec<u8>, delimiter: u8) -> (r: Vec<usize>)
    ensures
        r@.len() == spec_cell_address(byte_array@, delimiter).len(),
        forall|k: int|
            0 <= k < r@.len() ==> r@[k] == spec_cell_address(byte_array@, delimiter)[k],
{
    let ghost goal = spec_cell_address(byte_array@, delimiter);
    let mut acc: Vec<usize> = Vec::new();
    acc.push(0);
    let mut dq: usize = 0;
    let mut i: usize = 0;
    proof {
        assert(acc@.map_values(|x: usize| x as int) =~= seq![0]);
    }
    while i < byte_array.len()
        invariant
            i <= byte_array@.len(),
            dq <= i,
            goal == spec_cell_address(byte_array@, delimiter),
            goal == cell_address_rec(
                byte_array@,
                delimiter,
                i as int,
                acc@.map_values(|x: usize| x as int),
                dq as int,
            ),
        decreases byte_array@.len() - i,
    {
        let b = byte_array[i];
        let ghost acc0 = acc@.map_values(|x: usize| x as int);
        if b == delimiter && dq % 2 == 0 {
            acc.push(i + 1);
            proof {
                assert(acc@.map_values(|x: usize| x as int) =~= acc0.push(i as int + 1));
            }
        } else if b == delimiter {
        } else if b == 10 {
            acc.push(i + 1);
            dq = 0;
            proof {
                assert(acc@.map_values(|x: usize| x as int) =~= acc0.push(i as int + 1));
            }
        } else if b == 13 {
            acc.push(i + 1);
            proof {
                assert(acc@.map_values(|x: usize| x as int) =~= acc0.push(i as int + 1));
            }
        } else if b == 34 {
            dq = dq + 1;
        }
        i = i + 1;
    }
    proof {
        let fin = acc@.map_values(|x: usize| x as int);
        assert(goal == fin);
        assert(goal.len() == acc@.len());
        assert(forall|k: int| 0 <= k < acc@.len() ==> goal[k] == #[trigger] acc@[k]);
    }
    acc
}

} // verus!
