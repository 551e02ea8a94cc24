//! The dialect sampler: drives the row locator at evenly spaced offsets,
//! intersects per-row byte-frequency distributions to find delimiter
//! candidates, resolves ties (comma first, then a single punctuation
//! survivor), collects header names, estimates the total row count, and
//! accumulates advisory diagnostics.

use crate::meta::CsvMeta;
use crate::scan::{
    count_byte, get_byte_array_frequency_distribution, locate_row, scan_row, skip_white_space,
    spec_locate_row, trim_end, trim_start,
};
use crate::text::{spec_decimal, string_from_bytes, usize_to_string};
use vstd::arithmetic::div_mod::{
    lemma_div_is_ordered, lemma_div_multiples_vanish, lemma_div_nonincreasing,
};
use vstd::arithmetic::mul::lemma_mul_inequality;
use vstd::prelude::*;
use vstd::string::StringExecFns;

verus! {

/// A fatal inspection failure: the sample window was exhausted before a
/// complete row appeared, the header row never ended, or a header label
/// was not valid text.  Advisory conditions never surface here; they go to
/// the diagnostics field.
#[derive(Debug, Clone, Copy, PartialEq, Eq, Structural)]
pub enum InspectError {
    /// No complete, non-empty row lies within a sample read window.
    SampleWindowExhausted,
    /// The header row has no line feed inside the file.
    HeaderRowIncomplete,
    /// A header cell is not valid UTF-8 text.
    HeaderNotText,
}

/// The effective number of rows to sample: a non-positive request or a
/// small file falls back to 10 rows, and a tiny file or a request of at
/// most 2 falls back to 2 rows.
pub open spec fn spec_sample_rows(requested: int, file_size: int) -> int {
    let s1 = if requested <= 0 || file_size <= 10000 {
        10int
    } else {
        requested
    };
    if file_size <= 1000 || s1 <= 2 {
        2int
    } else {
        s1
    }
}

/// Applies the default sample-row policy.
pub fn sample_rows(requested: i32, file_size: usize) -> (r: usize)
    ensures
        r as int == spec_sample_rows(requested as int, file_size as int),
        2 <= r <= 2147483647,
{
    let s1: i32 = if requested <= 0 || file_size <= 10000 {
        10
    } else {
        requested
    };
    if file_size <= 1000 || s1 <= 2 {
        2
    } else {
        s1 as usize
    }
}

/// A located row never exceeds the scanned window.
proof fn lemma_scan_row_len(w: Seq<u8>, i: int, first: bool, row: Seq<u8>, dq: int)
    requires
        0 <= i <= w.len(),
    ensures
        scan_row(w, i, first, row, dq).1.len() <= row.len() + (w.len() - i),
    decreases w.len() - i,
{
    if i < w.len() {
        let b = w[i];
        let second = first && b == 10;
        let first2 = first || b == 10;
        let keep = first2 && !(row.len() == 0 && b == 10);
        let dq2 = if keep && b == 34 {
            dq + 1
        } else {
            dq
        };
        let row2 = if keep && dq2 % 2 == 0 {
            row.push(b)
        } else {
            row
        };
        if !second {
            lemma_scan_row_len(w, i + 1, first2, row2, dq2);
        }
    }
}

/// A located row holds at most 10,000 bytes: the locator's byte cap.
pub proof fn lemma_located_row_len(data: Seq<u8>, start: int, at_start: bool)
    requires
        0 <= start <= data.len(),
    ensures
        spec_locate_row(data, start, at_start) is Some ==> spec_locate_row(
            data,
            start,
            at_start,
        ).unwrap().len() <= 10000,
{
    let w = crate::scan::row_window(data, start);
    lemma_scan_row_len(w, 0, at_start, Seq::empty(), 0);
}

/// Copies `buf[ts..te)` into a vector of its own.
pub fn sub_vec(buf: &Vec<u8>, ts: usize, te: usize) -> (v: Vec<u8>)
    requires
        ts <= te <= buf@.len(),
    ensures
        v@ == buf@.subrange(ts as int, te as int),
{
    let mut v: Vec<u8> = Vec::new();
    let mut i: usize = ts;
    while i < te
        invariant
            ts <= i <= te <= buf@.len(),
            v@ == buf@.subrange(ts as int, i as int),
        decreases te - i,
    {
        v.push(buf[i]);
        proof {
            assert(buf@.subrange(ts as int, i as int + 1) =~= buf@.subrange(
                ts as int,
                i as int,
            ).push(buf@[i as int]));
        }
        i = i + 1;
    }
    v
}

/// The header scan of the column-name pass: walks the file from its start
/// to the first line feed, collecting a cell boundary after each surviving
/// delimiter byte and each terminator byte; quote bytes toggle parity, and
/// a carriage return marks a boundary without opening a new column.
/// Returns the boundary offsets, the number of cells, and whether the line
/// feed was found.
pub open spec fn gcn_rec(data: Seq<u8>, delim: u8, i: int, acc: Seq<int>, cc: int, dq: int) -> (
    Seq<int>,
    int,
    bool,
)
    decreases data.len() - i,
{
    if i < 0 || i >= data.len() {
        (acc, cc, false)
    } else {
        let b = data[i];
        if b == delim && dq % 2 == 0 {
            gcn_rec(data, delim, i + 1, acc.push(i + 1), cc + 1, dq)
        } else if b == delim {
            gcn_rec(data, delim, i + 1, acc, cc, dq)
        } else if b == 10 {
            (acc.push(i + 1), cc + 1, true)
        } else if b == 13 {
            gcn_rec(data, delim, i + 1, acc.push(i + 1), cc, dq)
        } else if b == 34 {
            gcn_rec(data, delim, i + 1, acc, cc, dq + 1)
        } else {
            gcn_rec(data, delim, i + 1, acc, cc, dq)
        }
    }
}

/// The header-scan boundaries of a file under a delimiter.
pub open spec fn spec_gcn(data: Seq<u8>, delim: u8) -> (Seq<int>, int, bool) {
    gcn_rec(data, delim, 0, seq![0], 0, 0)
}

/// The trimmed byte span of header cell `i`.
pub open spec fn header_cell_span(data: Seq<u8>, addr: Seq<int>, i: int) -> Seq<u8> {
    let s0 = addr[i];
    let e0 = addr[i + 1] - 1;
    let ts = trim_start(data, s0, e0);
    let te = trim_end(data, ts, e0);
    data.subrange(ts, te)
}

/// Whether every header cell of the scan holds valid text.
pub open spec fn header_cells_text(data: Seq<u8>, addr: Seq<int>, cc: int) -> bool {
    forall|i: int| 0 <= i < cc ==> vstd::utf8::valid_utf8(#[trigger] header_cell_span(data, addr, i))
}

/// The header names the column-name pass produces, as character sequences.
pub open spec fn spec_header_names(data: Seq<u8>, addr: Seq<int>, cc: int) -> Seq<Seq<char>> {
    Seq::new(cc as nat, |i: int| vstd::utf8::decode_utf8(header_cell_span(data, addr, i)))
}

proof fn lemma_gcn_rec_wf(data: Seq<u8>, delim: u8, i: int, acc: Seq<int>, cc: int, dq: int)
    requires
        0 <= i <= data.len(),
        acc.len() >= 1,
        0 <= cc <= acc.len() - 1,
        forall|k: int, l: int| 0 <= k < l < acc.len() ==> acc[k] < acc[l],
        forall|k: int| 0 <= k < acc.len() ==> 0 <= #[trigger] acc[k] <= i,
    ensures
        ({
            let r = gcn_rec(data, delim, i, acc, cc, dq);
            &&& r.0.len() >= acc.len()
            &&& r.0.take(acc.len() as int) == acc
            &&& cc <= r.1 <= r.0.len() - 1
            &&& forall|k: int, l: int| 0 <= k < l < r.0.len() ==> r.0[k] < r.0[l]
            &&& forall|k: int| 0 <= k < r.0.len() ==> 0 <= #[trigger] r.0[k] <= data.len()
        }),
    decreases data.len() - i,
{
    if i < data.len() {
        let b = data[i];
        if b == delim && dq % 2 == 0 {
            let acc2 = acc.push(i + 1);
            lemma_gcn_rec_wf(data, delim, i + 1, acc2, cc + 1, dq);
            let r = gcn_rec(data, delim, i, acc, cc, dq);
            assert(r.0.take(acc2.len() as int).take(acc.len() as int) =~= r.0.take(
                acc.len() as int,
            ));
            assert(acc2.take(acc.len() as int) =~= acc);
        } else if b == delim {
            lemma_gcn_rec_wf(data, delim, i + 1, acc, cc, dq);
        } else if b == 10 {
            let acc2 = acc.push(i + 1);
            assert(acc2.take(acc.len() as int) =~= acc);
        } else if b == 13 {
            let acc2 = acc.push(i + 1);
            lemma_gcn_rec_wf(data, delim, i + 1, acc2, cc, dq);
            let r = gcn_rec(data, delim, i, acc, cc, dq);
            assert(r.0.take(acc2.len() as int).take(acc.len() as int) =~= r.0.take(
                acc.len() as int,
            ));
            assert(acc2.take(acc.len() as int) =~= acc);
        } else if b == 34 {
            lemma_gcn_rec_wf(data, delim, i + 1, acc, cc, dq + 1);
        } else {
            lemma_gcn_rec_wf(data, delim, i + 1, acc, cc, dq);
        }
    } else {
        assert(gcn_rec(data, delim, i, acc, cc, dq).0.take(acc.len() as int) =~= acc);
    }
}

/// The header scan's boundaries are strictly increasing, start at 0, stay
/// within the file, and outnumber the cells.
pub proof fn lemma_gcn_wf(data: Seq<u8>, delim: u8)
    ensures
        ({
            let r = spec_gcn(data, delim);
            &&& r.0.len() >= 1
            &&& r.0[0] == 0
            &&& 0 <= r.1 <= r.0.len() - 1
            &&& forall|k: int, l: int| 0 <= k < l < r.0.len() ==> r.0[k] < r.0[l]
            &&& forall|k: int| 0 <= k < r.0.len() ==> 0 <= #[trigger] r.0[k] <= data.len()
        }),
{
    lemma_gcn_rec_wf(data, delim, 0, seq![0], 0, 0);
    let r = spec_gcn(data, delim);
    assert(r.0.take(1)[0] == 0);
}

/// Collects the header labels: scans the file from its start to the first
/// line feed with the chosen delimiter and the quote-parity rule, and
/// returns each cell's text with surrounding spaces trimmed.  Fails when
/// the header row never ends or a cell is not valid text.
pub fn get_column_name(data: &Vec<u8>, delimiter: u8) -> (r: Result<Vec<String>, InspectError>)
    ensures
        ({
            let g = spec_gcn(data@, delimiter);
            match r {
                Ok(names) => g.2 && header_cells_text(data@, g.0, g.1) && names@.map_values(
                    |s: String| s@,
                ) == spec_header_names(data@, g.0, g.1),
                Err(e) => (e == InspectError::HeaderRowIncomplete && !g.2) || (e
                    == InspectError::HeaderNotText && g.2 && !header_cells_text(data@, g.0, g.1)),
            }
        }),
{
    let ghost g = spec_gcn(data@, delimiter);
    proof {
        lemma_gcn_wf(data@, delimiter);
    }
    let dl: usize = data.len();
    let mut acc: Vec<usize> = Vec::new();
    acc.push(0);
    let mut cc: usize = 0;
    let mut dq: usize = 0;
    let mut i: usize = 0;
    let mut found = false;
    proof {
        assert(acc@.map_values(|x: usize| x as int) =~= seq![0]);
    }
    while i < data.len() && !found
        invariant
            dl == data@.len(),
            i <= data@.len(),
            dq <= i,
            cc <= i,
            cc <= acc@.len() - 1,
            acc@.len() >= 1,
            g == spec_gcn(data@, delimiter),
            !found ==> g == gcn_rec(
                data@,
                delimiter,
                i as int,
                acc@.map_values(|x: usize| x as int),
                cc as int,
                dq as int,
            ),
            found ==> g == (acc@.map_values(|x: usize| x as int), cc as int, true),
        decreases data@.len() - i, (if found {
            0int
        } else {
            1int
        }),
    {
        let b = data[i];
        let ghost acc0 = acc@.map_values(|x: usize| x as int);
        if b == delimiter && dq % 2 == 0 {
            acc.push(i + 1);
            cc = cc + 1;
            proof {
                assert(acc@.map_values(|x: usize| x as int) =~= acc0.push(i as int + 1));
            }
        } else if b == delimiter {
        } else if b == 10 {
            acc.push(i + 1);
            cc = cc + 1;
            found = true;
            proof {
                assert(acc@.map_values(|x: usize| x as int) =~= acc0.push(i as int + 1));
            }
        } else if b == 13 {
            acc.push(i + 1);
            proof {
                assert(acc@.map_values(|x: usize| x as int) =~= acc0.push(i as int + 1));
            }
        } else if b == 34 {
            dq = dq + 1;
        }
        i = i + 1;
    }
    if !found {
        return Err(InspectError::HeaderRowIncomplete);
    }
    let ghost addrs = acc@.map_values(|x: usize| x as int);
    proof {
        assert(g.0 == addrs);
        assert(g.1 == cc as int);
        assert(forall|k: int, l: int| 0 <= k < l < addrs.len() ==> addrs[k] < addrs[l]);
        assert(forall|k: int| 0 <= k < addrs.len() ==> 0 <= #[trigger] addrs[k] <= data@.len());
    }
    let mut names: Vec<String> = Vec::new();
    let mut k: usize = 0;
    while k < cc
        invariant
            k <= cc,
            cc <= acc@.len() - 1,
            addrs == acc@.map_values(|x: usize| x as int),
            g == spec_gcn(data@, delimiter),
            g.0 == addrs,
            g.1 == cc as int,
            g.2,
            forall|x: int, l: int| 0 <= x < l < addrs.len() ==> addrs[x] < addrs[l],
            forall|x: int| 0 <= x < addrs.len() ==> 0 <= #[trigger] addrs[x] <= data@.len(),
            names@.len() == k,
            forall|x: int|
                0 <= x < k ==> vstd::utf8::valid_utf8(#[trigger] header_cell_span(data@, addrs, x)),
            forall|x: int|
                0 <= x < k ==> (#[trigger] names@[x])@ == vstd::utf8::decode_utf8(
                    header_cell_span(data@, addrs, x),
                ),
        decreases cc - k,
    {
        proof {
            assert(addrs[k as int] == acc@[k as int]);
            assert(addrs[k as int + 1] == acc@[k as int + 1]);
            assert(addrs[k as int] < addrs[k as int + 1]);
        }
        let s0: usize = acc[k];
        let e0: usize = acc[k + 1] - 1;
        let (ts, te) = skip_white_space(data, s0, e0);
        let cell = sub_vec(data, ts, te);
        proof {
            assert(cell@ == header_cell_span(data@, addrs, k as int));
        }
        match string_from_bytes(&cell) {
            Some(s) => {
                names.push(s);
            },
            None => {
                proof {
                    assert(!vstd::utf8::valid_utf8(header_cell_span(data@, addrs, k as int)));
                    assert(!header_cells_text(data@, g.0, g.1)) by {
                        assert(0 <= k as int && (k as int) < g.1);
                        assert(!vstd::utf8::valid_utf8(header_cell_span(data@, g.0, k as int)));
                    }
                }
                return Err(InspectError::HeaderNotText);
            },
        }
        k = k + 1;
    }
    proof {
        assert(names@.map_values(|s: String| s@) =~= spec_header_names(data@, addrs, cc as int));
    }
    Ok(names)
}


/// The file offset at which sample `i` is drawn: evenly spaced through the
/// file.
pub open spec fn sample_offset(file_size: int, sample_row: int, i: int) -> int {
    file_size * i / sample_row
}

/// The row the locator isolates for sample `i`.
pub open spec fn row_at(data: Seq<u8>, sample_row: int, i: int) -> Option<Seq<u8>> {
    spec_locate_row(data, sample_offset(data.len() as int, sample_row, i), false)
}

/// Whether the header row can be isolated at the head of the file.
pub open spec fn header_row_ok(data: Seq<u8>) -> bool {
    spec_locate_row(data, 0, true) is Some
}

/// Whether every sample row before `i` can be isolated.
pub open spec fn rows_ok(data: Seq<u8>, sample_row: int, i: int) -> bool {
    forall|j: int| 0 <= j < i ==> row_at(data, sample_row, j) is Some
}

/// The surviving count of byte `b` after intersecting the header row's
/// distribution with the first `i` sample rows: a byte survives a row only
/// when its count there equals its running count, and 0 marks a dropped
/// byte.
pub open spec fn cand_count(data: Seq<u8>, sample_row: int, i: int, b: u8) -> nat
    decreases i,
{
    if i <= 0 {
        match spec_locate_row(data, 0, true) {
            Some(h) => count_byte(h, b),
            None => 0,
        }
    } else {
        let prev = cand_count(data, sample_row, i - 1, b);
        match row_at(data, sample_row, i - 1) {
            Some(row) => {
                let rc = count_byte(row, b);
                if prev > 0 && rc == prev {
                    prev
                } else {
                    0
                }
            },
            None => 0,
        }
    }
}

/// The surviving data candidates: the intersection after all sample rows,
/// with the line-terminator bytes split off.
pub open spec fn cand_data(data: Seq<u8>, sample_row: int, b: u8) -> nat {
    if b == 10 || b == 13 {
        0
    } else {
        cand_count(data, sample_row, sample_row, b)
    }
}

/// The punctuation ranges a delimiter may come from.
pub open spec fn is_punct(b: u8) -> bool {
    b <= 47 || (58 <= b && b <= 64) || (91 <= b && b <= 96) || b >= 123
}

/// How many byte values below `hi` survive as data candidates.
pub open spec fn num_cands(data: Seq<u8>, sample_row: int, hi: int) -> nat
    decreases hi,
{
    if hi <= 0 {
        0
    } else {
        num_cands(data, sample_row, hi - 1) + (if cand_data(data, sample_row, (hi - 1) as u8)
            > 0 {
            1nat
        } else {
            0nat
        })
    }
}

/// How many byte values below `hi` survive and lie in the punctuation
/// ranges.
pub open spec fn num_punct_cands(data: Seq<u8>, sample_row: int, hi: int) -> nat
    decreases hi,
{
    if hi <= 0 {
        0
    } else {
        num_punct_cands(data, sample_row, hi - 1) + (if cand_data(
            data,
            sample_row,
            (hi - 1) as u8,
        ) > 0 && is_punct((hi - 1) as u8) {
            1nat
        } else {
            0nat
        })
    }
}

/// The largest surviving byte value below `hi` (0 when none survives).
pub open spec fn last_cand(data: Seq<u8>, sample_row: int, hi: int) -> u8
    decreases hi,
{
    if hi <= 0 {
        0
    } else if cand_data(data, sample_row, (hi - 1) as u8) > 0 {
        (hi - 1) as u8
    } else {
        last_cand(data, sample_row, hi - 1)
    }
}

/// The largest surviving punctuation byte below `hi` (0 when none).
pub open spec fn last_punct_cand(data: Seq<u8>, sample_row: int, hi: int) -> u8
    decreases hi,
{
    if hi <= 0 {
        0
    } else if cand_data(data, sample_row, (hi - 1) as u8) > 0 && is_punct((hi - 1) as u8) {
        (hi - 1) as u8
    } else {
        last_punct_cand(data, sample_row, hi - 1)
    }
}

/// Delimiter resolution over the surviving data candidates, in order:
/// comma wherever it survives; else a sole survivor, if punctuation; else
/// a sole punctuation survivor among several.  Anything else leaves the
/// delimiter unset and the column count zero.  Returns the delimiter and
/// the column count (the survivor's count plus one).
pub open spec fn spec_delim(data: Seq<u8>, sample_row: int) -> (u8, int) {
    if cand_data(data, sample_row, 44) > 0 {
        (44u8, cand_data(data, sample_row, 44) as int + 1)
    } else if num_cands(data, sample_row, 256) == 1 {
        let b = last_cand(data, sample_row, 256);
        if is_punct(b) {
            (b, cand_data(data, sample_row, b) as int + 1)
        } else {
            (0u8, 0int)
        }
    } else if num_cands(data, sample_row, 256) > 1 {
        if num_punct_cands(data, sample_row, 256) == 1 {
            let b = last_punct_cand(data, sample_row, 256);
            (b, cand_data(data, sample_row, b) as int + 1)
        } else {
            (0u8, 0int)
        }
    } else {
        (0u8, 0int)
    }
}

/// Whether the sample leaves several punctuation candidates and no comma:
/// the ambiguous-delimiter condition.
pub open spec fn spec_ambiguous(data: Seq<u8>, sample_row: int) -> bool {
    cand_data(data, sample_row, 44) == 0 && num_cands(data, sample_row, 256) > 1
        && num_punct_cands(data, sample_row, 256) > 1
}

/// The concatenation of all sampled rows' bytes, in sampling order.
pub open spec fn csv_bytes(data: Seq<u8>, sample_row: int, i: int) -> Seq<u8>
    decreases i,
{
    if i <= 0 {
        Seq::<u8>::empty()
    } else {
        csv_bytes(data, sample_row, i - 1) + (match row_at(data, sample_row, i - 1) {
            Some(row) => row,
            None => Seq::<u8>::empty(),
        })
    }
}

/// The extrapolated row count: the file size over the average sampled row
/// size, or 0 when the average vanishes.
pub open spec fn spec_estimate(data: Seq<u8>, sample_row: int) -> int {
    let sbc = csv_bytes(data, sample_row, sample_row).len() as int;
    let avg = sbc / sample_row;
    if avg > 0 {
        data.len() as int / avg
    } else {
        0
    }
}

/// One line of the ambiguous-delimiter diagnostic: the candidate's code
/// and its printable form.
pub open spec fn amb_entry(b: u8) -> Seq<char> {
    "   ASCII"@ + spec_decimal(b as nat) + " ("@ + (if b < 128 {
        seq![b as char]
    } else {
        "?"@
    }) + ")\n"@
}

/// The ambiguous-delimiter listing over candidates below `hi`, in
/// ascending byte order.
pub open spec fn amb_list(data: Seq<u8>, sample_row: int, hi: int) -> Seq<char>
    decreases hi,
{
    if hi <= 0 {
        Seq::<char>::empty()
    } else {
        amb_list(data, sample_row, hi - 1) + (if cand_data(data, sample_row, (hi - 1) as u8) > 0
            && is_punct((hi - 1) as u8) {
            amb_entry((hi - 1) as u8)
        } else {
            Seq::<char>::empty()
        })
    }
}

/// The accumulated advisory diagnostics of one inspection, in order: the
/// ambiguous-delimiter listing; then either the no-delimiter notice, or
/// the zero-column, zero-estimate, empty-header and header-mismatch
/// notices that apply.  All applicable notices are collected; none aborts
/// the inspection.
pub open spec fn spec_message(
    data: Seq<u8>,
    sample_row: int,
    names_len: int,
    est: int,
    total: int,
) -> Seq<char> {
    (if spec_ambiguous(data, sample_row) {
        "** More than one possible delimiter ** \n"@ + amb_list(data, sample_row, 256)
    } else {
        Seq::<char>::empty()
    }) + (if num_cands(data, sample_row, 256) == 0 {
        "** Fail to find delimiter ** \n"@
    } else {
        (if total == 0 {
            "** Fail to count number of column ** \n"@
        } else {
            Seq::<char>::empty()
        }) + (if est == 0 {
            "** Fail to estimate number of row ** \n"@
        } else {
            Seq::<char>::empty()
        }) + (if names_len == 0 {
            "** Fail to find any column name ** \n"@
        } else {
            Seq::<char>::empty()
        }) + (if names_len != total {
            "** Number of column name is "@ + spec_decimal(names_len as nat)
                + ", but number of column is "@ + spec_decimal(total as nat) + " ** \n"@
        } else {
            Seq::<char>::empty()
        })
    })
}

/// Intersection never grows a candidate's count beyond the header row's.
pub proof fn lemma_cand_le_header(data: Seq<u8>, sample_row: int, i: int, b: u8)
    ensures
        cand_count(data, sample_row, i, b) <= cand_count(data, sample_row, 0, b),
    decreases i,
{
    if i > 0 {
        lemma_cand_le_header(data, sample_row, i - 1, b);
    }
}

/// Every surviving candidate count fits the locator's byte cap.
pub proof fn lemma_cand_bound(data: Seq<u8>, sample_row: int, i: int, b: u8)
    ensures
        cand_count(data, sample_row, i, b) <= 10000,
{
    lemma_cand_le_header(data, sample_row, i, b);
    match spec_locate_row(data, 0, true) {
        Some(h) => {
            lemma_located_row_len(data, 0, true);
            crate::scan::lemma_count_byte_le_len(h, b);
        },
        None => {},
    }
}

/// Appends all bytes of `src`.
fn append_all(dst: &mut Vec<u8>, src: &Vec<u8>)
    ensures
        final(dst)@ == old(dst)@ + src@,
{
    let mut i: usize = 0;
    while i < src.len()
        invariant
            i <= src@.len(),
            dst@ == old(dst)@ + src@.take(i as int),
        decreases src@.len() - i,
    {
        dst.push(src[i]);
        proof {
            assert(old(dst)@ + src@.take(i as int + 1) =~= (old(dst)@ + src@.take(i as int)).push(
                src@[i as int],
            ));
        }
        i = i + 1;
    }
    proof {
        assert(src@.take(src@.len() as int) =~= src@);
    }
}

/// Samples the header row and the `sr` data rows, concatenating the row
/// bytes and intersecting the byte-frequency distributions.  Returns the
/// sample buffer and the 256-entry surviving-count table.
#[verifier::rlimit(60)]
fn sample_candidates(data: &Vec<u8>, sr: usize, Ghost(req): Ghost<int>) -> (r: Result<
    (Vec<u8>, Vec<usize>),
    InspectError,
>)
    requires
        2 <= sr <= 2147483647,
        sr as int == spec_sample_rows(req, data@.len() as int),
    ensures
        ({
            let sri = sr as int;
            match r {
                Ok(p) => {
                    &&& header_row_ok(data@)
                    &&& rows_ok(data@, sri, sri)
                    &&& p.0@ == csv_bytes(data@, sri, sri)
                    &&& p.1@.len() == 256
                    &&& forall|v: int|
                        0 <= v < 256 ==> p.1@[v] == cand_count(data@, sri, sri, v as u8)
                },
                Err(e) => e == InspectError::SampleWindowExhausted && !(header_row_ok(data@)
                    && rows_ok(data@, sri, sri)),
            }
        }),
{
    let fs: usize = data.len();
    let ghost sri = sr as int;
    let header = match locate_row(data, 0, true) {
        Some(h) => h,
        None => {
            return Err(InspectError::SampleWindowExhausted);
        },
    };
    let mut cand: Vec<usize> = get_byte_array_frequency_distribution(&header);
    proof {
        assert(forall|v: int| 0 <= v < 256 ==> cand@[v] == cand_count(data@, sri, 0, v as u8));
    }
    let mut csv: Vec<u8> = Vec::new();
    let mut i: usize = 0;
    while i < sr
        invariant
            i <= sr,
            2 <= sr <= 2147483647,
            sri == sr as int,
            fs == data@.len(),
            header_row_ok(data@),
            rows_ok(data@, sri, i as int),
            cand@.len() == 256,
            forall|v: int| 0 <= v < 256 ==> cand@[v] == cand_count(data@, sri, i as int, v as u8),
            csv@ == csv_bytes(data@, sri, i as int),
        decreases sr - i,
    {
        proof {
            assert((fs as u128) * (i as u128) <= 0xFFFF_FFFF_FFFF_FFFFu128 * 0x7FFF_FFFFu128)
                by (nonlinear_arith)
                requires
                    fs as u128 <= 0xFFFF_FFFF_FFFF_FFFFu128,
                    i as u128 <= 0x7FFF_FFFFu128,
            ;
        }
        let off_u: u128 = (fs as u128) * (i as u128) / (sr as u128);
        proof {
            let fsi = data@.len() as int;
            lemma_mul_inequality(i as int, sri, fsi);
            assert(fsi * (i as int) == (i as int) * fsi) by (nonlinear_arith);
            assert(fsi * sri == sri * fsi) by (nonlinear_arith);
            lemma_div_is_ordered(fsi * (i as int), fsi * sri, sri);
            lemma_div_multiples_vanish(fsi, sri);
            assert(off_u as int == sample_offset(fsi, sri, i as int));
            assert(off_u as int <= fsi);
        }
        let offset: usize = off_u as usize;
        let row = match locate_row(data, offset, false) {
            Some(rw) => rw,
            None => {
                proof {
                    assert(row_at(data@, sri, i as int) is None);
                    assert(!rows_ok(data@, sri, sri));
                }
                return Err(InspectError::SampleWindowExhausted);
            },
        };
        proof {
            assert(row_at(data@, sri, i as int) == Some(row@));
        }
        let freq = get_byte_array_frequency_distribution(&row);
        let ghost prev_cand = cand@;
        let mut bb: usize = 0;
        while bb < 256
            invariant
                bb <= 256,
                cand@.len() == 256,
                freq@.len() == 256,
                prev_cand.len() == 256,
                forall|v: int| 0 <= v < 256 ==> freq@[v] == count_byte(row@, v as u8),
                forall|v: int|
                    0 <= v < bb ==> cand@[v] == ({
                        let prev = prev_cand[v];
                        if prev > 0 && freq@[v] == prev {
                            prev
                        } else {
                            0
                        }
                    }),
                forall|v: int| bb <= v < 256 ==> cand@[v] == prev_cand[v],
            decreases 256 - bb,
        {
            let cur = cand[bb];
            let rc = freq[bb];
            let nv: usize = if cur > 0 && rc == cur {
                cur
            } else {
                0
            };
            cand.set(bb, nv);
            bb = bb + 1;
        }
        proof {
            assert forall|v: int| 0 <= v < 256 implies cand@[v] == cand_count(
                data@,
                sri,
                i as int + 1,
                v as u8,
            ) by {
                assert(prev_cand[v] == cand_count(data@, sri, i as int, v as u8));
            }
        }
        append_all(&mut csv, &row);
        proof {
            assert(csv@ =~= csv_bytes(data@, sri, i as int + 1));
        }
        i = i + 1;
    }
    Ok((csv, cand))
}

/// Splits the line-terminator bytes off the surviving candidates and
/// resolves the delimiter: comma first; else a sole punctuation survivor.
/// Returns the delimiter (0 when unset), the detected column count, the
/// ambiguity flag, and the two terminator flags.  The table is reduced to
/// the data candidates.
fn resolve_delimiter(
    cand: &mut Vec<usize>,
    Ghost(data): Ghost<Seq<u8>>,
    Ghost(sri): Ghost<int>,
) -> (r: (u8, usize, bool, bool, bool))
    requires
        old(cand)@.len() == 256,
        forall|v: int| 0 <= v < 256 ==> old(cand)@[v] == cand_count(data, sri, sri, v as u8),
    ensures
        final(cand)@.len() == 256,
        forall|v: int| 0 <= v < 256 ==> final(cand)@[v] == cand_data(data, sri, v as u8),
        r.0 == spec_delim(data, sri).0,
        r.1 as int == spec_delim(data, sri).1,
        r.2 == spec_ambiguous(data, sri),
        r.3 == (cand_count(data, sri, sri, 10) > 0),
        r.4 == (cand_count(data, sri, sri, 13) > 0),
{
    let has_lf = cand[10] > 0;
    let has_cr = cand[13] > 0;
    cand.set(10, 0);
    cand.set(13, 0);
    proof {
        assert(forall|v: int| 0 <= v < 256 ==> cand@[v] == cand_data(data, sri, v as u8));
    }
    let mut ncand: usize = 0;
    let mut npunct: usize = 0;
    let mut lastc: u8 = 0;
    let mut lastp: u8 = 0;
    let mut bb: usize = 0;
    while bb < 256
        invariant
            bb <= 256,
            cand@.len() == 256,
            forall|v: int| 0 <= v < 256 ==> cand@[v] == cand_data(data, sri, v as u8),
            ncand == num_cands(data, sri, bb as int),
            npunct == num_punct_cands(data, sri, bb as int),
            lastc == last_cand(data, sri, bb as int),
            lastp == last_punct_cand(data, sri, bb as int),
            ncand <= bb,
            npunct <= bb,
        decreases 256 - bb,
    {
        let cv = cand[bb];
        if cv > 0 {
            ncand = ncand + 1;
            lastc = bb as u8;
            if bb <= 47 || (58 <= bb && bb <= 64) || (91 <= bb && bb <= 96) || bb >= 123 {
                npunct = npunct + 1;
                lastp = bb as u8;
            }
        }
        bb = bb + 1;
    }
    let mut delimiter: u8 = 0;
    let mut total: usize = 0;
    let mut ambiguous: bool = false;
    let c44 = cand[44];
    proof {
        lemma_cand_bound(data, sri, sri, 44);
        lemma_cand_bound(data, sri, sri, lastc);
        lemma_cand_bound(data, sri, sri, lastp);
    }
    if c44 > 0 {
        delimiter = 44;
        total = c44 + 1;
    } else if ncand == 1 {
        if lastc <= 47 || (58 <= lastc && lastc <= 64) || (91 <= lastc && lastc <= 96) || lastc
            >= 123 {
            delimiter = lastc;
            total = cand[lastc as usize] + 1;
        }
    } else if ncand > 1 {
        if npunct == 1 {
            delimiter = lastp;
            total = cand[lastp as usize] + 1;
        } else if npunct > 1 {
            ambiguous = true;
        }
    }
    (delimiter, total, ambiguous, has_lf, has_cr)
}

/// Builds the accumulated advisory diagnostics, in the order the sampler
/// records them.
#[verifier::rlimit(60)]
fn build_message(
    cand: &Vec<usize>,
    ambiguous: bool,
    total: usize,
    est: usize,
    names_len: usize,
    Ghost(data): Ghost<Seq<u8>>,
    Ghost(sri): Ghost<int>,
) -> (msg: String)
    requires
        cand@.len() == 256,
        forall|v: int| 0 <= v < 256 ==> cand@[v] == cand_data(data, sri, v as u8),
        ambiguous == spec_ambiguous(data, sri),
        total as int == spec_delim(data, sri).1,
    ensures
        msg@ == spec_message(data, sri, names_len as int, est as int, total as int),
{
    let mut msg = String::new();
    if ambiguous {
        msg.append("** More than one possible delimiter ** \n");
        let mut bb2: usize = 0;
        proof {
            assert(msg@ =~= "** More than one possible delimiter ** \n"@ + amb_list(
                data,
                sri,
                0,
            ));
        }
        while bb2 < 256
            invariant
                bb2 <= 256,
                cand@.len() == 256,
                forall|v: int| 0 <= v < 256 ==> cand@[v] == cand_data(data, sri, v as u8),
                msg@ == "** More than one possible delimiter ** \n"@ + amb_list(
                    data,
                    sri,
                    bb2 as int,
                ),
            decreases 256 - bb2,
        {
            let cv = cand[bb2];
            let ghost msg0 = msg@;
            if cv > 0 && (bb2 <= 47 || (58 <= bb2 && bb2 <= 64) || (91 <= bb2 && bb2 <= 96) || bb2
                >= 123) {
                msg.append("   ASCII");
                let ds = usize_to_string(bb2);
                msg.append(ds.as_str());
                msg.append(" (");
                if bb2 < 128 {
                    let mut one: Vec<u8> = Vec::new();
                    one.push(bb2 as u8);
                    match string_from_bytes(&one) {
                        Some(cs) => {
                            proof {
                                assert(cs@ =~= seq![(bb2 as u8) as char]);
                            }
                            msg.append(cs.as_str());
                        },
                        None => {
                            proof {
                                assert(false);
                            }
                        },
                    }
                } else {
                    msg.append("?");
                }
                msg.append(")\n");
                proof {
                    assert(msg@ =~= msg0 + amb_entry(bb2 as u8));
                    assert(msg@ =~= "** More than one possible delimiter ** \n"@ + amb_list(
                        data,
                        sri,
                        bb2 as int + 1,
                    ));
                }
            }
            bb2 = bb2 + 1;
        }
    }
    let mut bb3: usize = 0;
    let mut any: bool = false;
    while bb3 < 256
        invariant
            bb3 <= 256,
            cand@.len() == 256,
            forall|v: int| 0 <= v < 256 ==> cand@[v] == cand_data(data, sri, v as u8),
            any == (num_cands(data, sri, bb3 as int) > 0),
        decreases 256 - bb3,
    {
        if cand[bb3] > 0 {
            any = true;
        }
        bb3 = bb3 + 1;
    }
    if !any {
        msg.append("** Fail to find delimiter ** \n");
    } else {
        if total == 0 {
            msg.append("** Fail to count number of column ** \n");
        }
        if est == 0 {
            msg.append("** Fail to estimate number of row ** \n");
        }
        if names_len == 0 {
            msg.append("** Fail to find any column name ** \n");
        }
        if names_len != total {
            msg.append("** Number of column name is ");
            let a = usize_to_string(names_len);
            msg.append(a.as_str());
            msg.append(", but number of column is ");
            let b2 = usize_to_string(total);
            msg.append(b2.as_str());
            msg.append(" ** \n");
        }
    }
    proof {
        assert(msg@ =~= spec_message(data, sri, names_len as int, est as int, total as int));
    }
    msg
}

/// Everything one inspection promises of its outcome: each field of the
/// dialect record, the sample buffer, and when each fatal error is
/// returned — all as functions of the file bytes and the requested sample
/// row count alone.
pub open spec fn inspect_post(
    data: Seq<u8>,
    sample_row: int,
    r: Result<(Vec<u8>, CsvMeta), InspectError>,
) -> bool {

            let sr = spec_sample_rows(sample_row, data.len() as int);
            let ok_rows = header_row_ok(data) && rows_ok(data, sr, sr);
            let dt = spec_delim(data, sr);
            let g = spec_gcn(data, dt.0);
            &&& (r is Ok <==> ok_rows && g.2 && header_cells_text(data, g.0, g.1))
            &&& match r {
                Ok(p) => {
                    &&& ok_rows
                    &&& g.2
                    &&& header_cells_text(data, g.0, g.1)
                    &&& p.0@ == csv_bytes(data, sr, sr)
                    &&& p.1.file_size == data.len()
                    &&& p.1.validate_row as int == sr
                    &&& p.1.delimiter == dt.0
                    &&& p.1.total_column as int == dt.1
                    &&& p.1.is_line_br_10_exist == (cand_count(data, sr, sr, 10) > 0)
                    &&& p.1.is_line_br_13_exist == (cand_count(data, sr, sr, 13) > 0)
                    &&& p.1.column_name@.map_values(|s: String| s@) == spec_header_names(
                        data,
                        g.0,
                        g.1,
                    )
                    &&& p.1.estimate_row as int == spec_estimate(data, sr)
                    &&& p.1.error_message@ == spec_message(
                        data,
                        sr,
                        g.1,
                        spec_estimate(data, sr),
                        dt.1,
                    )
                },
                Err(e) => {
                    ||| (e == InspectError::SampleWindowExhausted && !ok_rows)
                    ||| (e == InspectError::HeaderRowIncomplete && ok_rows && !g.2)
                    ||| (e == InspectError::HeaderNotText && ok_rows && g.2 && !header_cells_text(
                        data,
                        g.0,
                        g.1,
                    ))
                },
            }
        
}

/// Inspects the file's bytes: samples the header row and `sample_row`
/// evenly spaced data rows, intersects their byte-frequency distributions,
/// resolves the delimiter, collects header names, estimates the total row
/// count, and accumulates advisory diagnostics.  Returns the concatenated
/// sample bytes and the dialect record, or a fatal error when a sample
/// window is exhausted or the header cannot be read.
pub fn get_csv_sample(data: &Vec<u8>, sample_row: i32) -> (r: Result<
    (Vec<u8>, CsvMeta),
    InspectError,
>)
    ensures
        inspect_post(data@, sample_row as int, r),
{
    let fs: usize = data.len();
    let sr: usize = sample_rows(sample_row, fs);
    let ghost sri = sr as int;
    let (csv, mut cand) = match sample_candidates(data, sr, Ghost(sample_row as int)) {
        Ok(p) => p,
        Err(e) => {
            return Err(e);
        },
    };
    let (delimiter, total, ambiguous, has_lf, has_cr) = resolve_delimiter(
        &mut cand,
        Ghost(data@),
        Ghost(sri),
    );
    let names = match get_column_name(data, delimiter) {
        Ok(n) => n,
        Err(e) => {
            return Err(e);
        },
    };
    let sbc: u64 = csv.len() as u64;
    let avg: u64 = sbc / (sr as u64);
    let est_u: u64 = if avg > 0 {
        proof {
            lemma_div_nonincreasing(fs as int, avg as int);
        }
        (fs as u64) / avg
    } else {
        0
    };
    let est: usize = est_u as usize;
    proof {
        assert(est as int == spec_estimate(data@, sri));
    }
    let msg = build_message(&cand, ambiguous, total, est, names.len(), Ghost(data@), Ghost(sri));
    proof {
        let g = spec_gcn(data@, delimiter);
        lemma_gcn_wf(data@, delimiter);
        assert(names@.map_values(|s: String| s@).len() == spec_header_names(data@, g.0, g.1).len());
        assert(names@.len() == g.1);
    }
    let meta = CsvMeta {
        total_column: total,
        validate_row: sr,
        estimate_row: est,
        is_line_br_13_exist: has_cr,
        is_line_br_10_exist: has_lf,
        column_name: names,
        file_size: fs,
        delimiter: delimiter,
        error_message: msg,
    };
    Ok((csv, meta))
}

} // verus!
