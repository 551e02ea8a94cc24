//! Laws of the dialect sampler: what delimiter resolution promises across
//! inputs — a sole survivor is selected, comma takes precedence, ambiguity
//! is reported rather than guessed — and that inspection is deterministic.

use crate::meta::CsvMeta;
use crate::sniff::{
    amb_entry, amb_list, cand_data, inspect_post, is_punct, last_cand, last_punct_cand, num_cands,
    num_punct_cands, spec_ambiguous, spec_delim, spec_message, InspectError,
};
use crate::text::spec_decimal;
use vstd::prelude::*;

verus! {

/// `needle` occurs inside `hay` as a contiguous run.
pub open spec fn contains_seq(hay: Seq<char>, needle: Seq<char>) -> bool {
    exists|i: int|
        0 <= i && i + needle.len() <= hay.len() && #[trigger] hay.subrange(i, i + needle.len())
            == needle
}

proof fn lemma_counts_single(data: Seq<u8>, sr: int, b: u8, hi: int)
    requires
        cand_data(data, sr, b) > 0,
        forall|v: u8| v != b ==> #[trigger] cand_data(data, sr, v) == 0,
        0 <= hi <= 256,
    ensures
        num_cands(data, sr, hi) == (if b < hi {
            1nat
        } else {
            0nat
        }),
        last_cand(data, sr, hi) == (if b < hi {
            b
        } else {
            0u8
        }),
        num_punct_cands(data, sr, hi) == (if b < hi && is_punct(b) {
            1nat
        } else {
            0nat
        }),
        last_punct_cand(data, sr, hi) == (if b < hi && is_punct(b) {
            b
        } else {
            0u8
        }),
    decreases hi,
{
    if hi > 0 {
        lemma_counts_single(data, sr, b, hi - 1);
        if (hi - 1) as u8 != b {
            assert(cand_data(data, sr, (hi - 1) as u8) == 0);
        }
    }
}

proof fn lemma_counts_two(data: Seq<u8>, sr: int, b1: u8, b2: u8, hi: int)
    requires
        b1 != b2,
        cand_data(data, sr, b1) > 0,
        cand_data(data, sr, b2) > 0,
        is_punct(b1),
        is_punct(b2),
        0 <= hi <= 256,
    ensures
        num_cands(data, sr, hi) >= (if b1 < hi {
            1nat
        } else {
            0nat
        }) + (if b2 < hi {
            1nat
        } else {
            0nat
        }),
        num_punct_cands(data, sr, hi) >= (if b1 < hi {
            1nat
        } else {
            0nat
        }) + (if b2 < hi {
            1nat
        } else {
            0nat
        }),
    decreases hi,
{
    if hi > 0 {
        lemma_counts_two(data, sr, b1, b2, hi - 1);
    }
}

/// If exactly one byte value survives intersection with a positive count
/// and it lies in the punctuation ranges, delimiter detection selects that
/// byte, and the detected column count is its surviving occurrence count
/// plus one.
pub proof fn lemma_single_survivor_selected(data: Seq<u8>, sr: int, b: u8)
    requires
        cand_data(data, sr, b) > 0,
        forall|v: u8| v != b ==> #[trigger] cand_data(data, sr, v) == 0,
        is_punct(b),
    ensures
        spec_delim(data, sr).0 == b,
        spec_delim(data, sr).1 == cand_data(data, sr, b) + 1,
{
    lemma_counts_single(data, sr, b, 256);
    if b != 44 {
        assert(cand_data(data, sr, 44) == 0);
    }
}

/// Comma takes precedence: wherever the comma byte survives intersection,
/// it is chosen as the delimiter, whatever else survives beside it.
pub proof fn lemma_comma_precedence(data: Seq<u8>, sr: int)
    requires
        cand_data(data, sr, 44) > 0,
    ensures
        spec_delim(data, sr).0 == 44,
        spec_delim(data, sr).1 == cand_data(data, sr, 44) + 1,
{
}

proof fn lemma_amb_list_prefix(data: Seq<u8>, sr: int, h1: int, h2: int)
    requires
        0 <= h1 <= h2,
    ensures
        amb_list(data, sr, h1).len() <= amb_list(data, sr, h2).len(),
        amb_list(data, sr, h2).subrange(0, amb_list(data, sr, h1).len() as int) == amb_list(
            data,
            sr,
            h1,
        ),
    decreases h2 - h1,
{
    if h1 < h2 {
        lemma_amb_list_prefix(data, sr, h1, h2 - 1);
        let a1 = amb_list(data, sr, h1);
        let a2 = amb_list(data, sr, h2);
        assert(a2.subrange(0, a1.len() as int) =~= a1);
    }
}

proof fn lemma_amb_contains(data: Seq<u8>, sr: int, b: u8)
    requires
        cand_data(data, sr, b) > 0,
        is_punct(b),
    ensures
        contains_seq(amb_list(data, sr, 256), amb_entry(b)),
{
    let before = amb_list(data, sr, b as int);
    let upto = amb_list(data, sr, b as int + 1);
    assert(upto == before + amb_entry(b));
    lemma_amb_list_prefix(data, sr, b as int + 1, 256);
    let whole = amb_list(data, sr, 256);
    let i = before.len() as int;
    assert(whole.subrange(i, i + amb_entry(b).len()) =~= amb_entry(b)) by {
        assert(whole.subrange(0, upto.len() as int) == upto);
        assert forall|k: int| 0 <= k < amb_entry(b).len() implies whole.subrange(
            i,
            i + amb_entry(b).len(),
        )[k] == amb_entry(b)[k] by {
            assert(whole[i + k] == whole.subrange(0, upto.len() as int)[i + k]);
            assert(upto[i + k] == amb_entry(b)[k]);
        }
    }
}

/// If two punctuation bytes survive with positive counts and comma is
/// absent, no delimiter is chosen, the column count stays zero, and the
/// ambiguous-delimiter diagnostic lists both candidates.
pub proof fn lemma_ambiguous_delimiter(
    data: Seq<u8>,
    sr: int,
    b1: u8,
    b2: u8,
    names_len: int,
    est: int,
)
    requires
        b1 != b2,
        b1 != 44,
        b2 != 44,
        is_punct(b1),
        is_punct(b2),
        cand_data(data, sr, b1) > 0,
        cand_data(data, sr, b2) > 0,
        cand_data(data, sr, 44) == 0,
    ensures
        spec_delim(data, sr).0 == 0,
        spec_delim(data, sr).1 == 0,
        spec_ambiguous(data, sr),
        contains_seq(spec_message(data, sr, names_len, est, 0), amb_entry(b1)),
        contains_seq(spec_message(data, sr, names_len, est, 0), amb_entry(b2)),
{
    lemma_counts_two(data, sr, b1, b2, 256);
    lemma_amb_contains(data, sr, b1);
    lemma_amb_contains(data, sr, b2);
    let msg = spec_message(data, sr, names_len, est, 0);
    let head = "** More than one possible delimiter ** \n"@;
    let listing = amb_list(data, sr, 256);
    assert forall|b: u8| contains_seq(listing, amb_entry(b)) implies contains_seq(
        msg,
        amb_entry(b),
    ) by {
        let i = choose|i: int|
            0 <= i && i + amb_entry(b).len() <= listing.len() && #[trigger] listing.subrange(
                i,
                i + amb_entry(b).len(),
            ) == amb_entry(b);
        let j = head.len() + i;
        assert(msg.subrange(j, j + amb_entry(b).len()) =~= amb_entry(b)) by {
            assert forall|k: int| 0 <= k < amb_entry(b).len() implies msg.subrange(
                j,
                j + amb_entry(b).len(),
            )[k] == amb_entry(b)[k] by {
                assert(msg[j + k] == listing[i + k]);
                assert(listing.subrange(i, i + amb_entry(b).len())[k] == amb_entry(b)[k]);
            }
        }
        assert(0 <= j && j + amb_entry(b).len() <= msg.len());
    }
}

/// A header whose cell count differs from the detected column count is
/// reported in the diagnostics with both counts spelled out.
pub proof fn lemma_header_mismatch_reported(
    data: Seq<u8>,
    sr: int,
    names_len: int,
    est: int,
    total: int,
)
    requires
        names_len != total,
        names_len >= 0,
        total >= 0,
        num_cands(data, sr, 256) > 0,
    ensures
        contains_seq(
            spec_message(data, sr, names_len, est, total),
            "** Number of column name is "@ + spec_decimal(names_len as nat)
                + ", but number of column is "@ + spec_decimal(total as nat) + " ** \n"@,
        ),
{
    let msg = spec_message(data, sr, names_len, est, total);
    let seg = "** Number of column name is "@ + spec_decimal(names_len as nat)
        + ", but number of column is "@ + spec_decimal(total as nat) + " ** \n"@;
    let i = msg.len() - seg.len() as int;
    assert(msg.subrange(i, i + seg.len()) =~= seg);
}

/// Inspecting an unmodified file twice yields identical results: the
/// sample buffer and every field of the dialect record are functions of
/// the file bytes and the requested sample-row count alone.
pub proof fn lemma_inspect_idempotent(
    data: Seq<u8>,
    sample_row: int,
    r1: Result<(Vec<u8>, CsvMeta), InspectError>,
    r2: Result<(Vec<u8>, CsvMeta), InspectError>,
)
    requires
        inspect_post(data, sample_row, r1),
        inspect_post(data, sample_row, r2),
        r1 is Ok,
        r2 is Ok,
    ensures
        r1.unwrap().0@ == r2.unwrap().0@,
        r1.unwrap().1.total_column == r2.unwrap().1.total_column,
        r1.unwrap().1.validate_row == r2.unwrap().1.validate_row,
        r1.unwrap().1.estimate_row == r2.unwrap().1.estimate_row,
        r1.unwrap().1.is_line_br_13_exist == r2.unwrap().1.is_line_br_13_exist,
        r1.unwrap().1.is_line_br_10_exist == r2.unwrap().1.is_line_br_10_exist,
        r1.unwrap().1.column_name@.map_values(|s: String| s@) == r2.unwrap().1.column_name@
            .map_values(|s: String| s@),
        r1.unwrap().1.file_size == r2.unwrap().1.file_size,
        r1.unwrap().1.delimiter == r2.unwrap().1.delimiter,
        r1.unwrap().1.error_message@ == r2.unwrap().1.error_message@,
{
}

} // verus!
