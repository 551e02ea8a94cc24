//! The sample writer: serializes the header labels and the raw sampled
//! rows as clean CSV bytes — labels joined by commas, a CRLF, then the
//! sample buffer verbatim.  Writing the bytes to the sample file is left
//! to the embedding program.

use crate::meta::CsvMeta;
use crate::render::{append_bytes, crlf, push_name};
use vstd::prelude::*;

verus! {

/// The header labels joined by commas, as bytes, over the first `i`
/// labels.
pub open spec fn joined_names(names: Seq<Seq<char>>, i: int) -> Seq<u8>
    decreases i,
{
    if i <= 0 {
        Seq::<u8>::empty()
    } else if i == 1 {
        vstd::utf8::encode_utf8(names[0])
    } else {
        joined_names(names, i - 1) + seq![44u8] + vstd::utf8::encode_utf8(names[i - 1])
    }
}

/// The serialized sample file: the joined header labels, a CRLF, then the
/// sample buffer verbatim.
pub open spec fn spec_sample_file(names: Seq<Seq<char>>, buf: Seq<u8>) -> Seq<u8> {
    joined_names(names, names.len() as int) + crlf() + buf
}

/// Serializes the header and the sampled raw bytes as the content of the
/// sample file.
pub fn write_csv(byte_array: &Vec<u8>, csv_meta: &CsvMeta) -> (out: Vec<u8>)
    requires
        csv_meta.column_name@.len() >= 1,
    ensures
        out@ == spec_sample_file(
            csv_meta.column_name@.map_values(|s: String| s@),
            byte_array@,
        ),
{
    let ghost names = csv_meta.column_name@.map_values(|s: String| s@);
    let mut out: Vec<u8> = Vec::new();
    push_name(&mut out, &csv_meta.column_name[0]);
    proof {
        assert(out@ =~= joined_names(names, 1));
    }
    let mut i: usize = 1;
    let n: usize = csv_meta.column_name.len();
    while i < n
        invariant
            1 <= i <= n,
            n == csv_meta.column_name@.len(),
            names == csv_meta.column_name@.map_values(|s: String| s@),
            out@ == joined_names(names, i as int),
        decreases n - i,
    {
        out.push(44);
        push_name(&mut out, &csv_meta.column_name[i]);
        proof {
            assert(names[i as int] == csv_meta.column_name@[i as int]@);
            assert(out@ =~= joined_names(names, i as int + 1));
        }
        i = i + 1;
    }
    out.push(13);
    out.push(10);
    append_bytes(&mut out, byte_array);
    proof {
        assert(out@ =~= spec_sample_file(names, byte_array@));
    }
    out
}

} // verus!
