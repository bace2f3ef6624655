use vstd::prelude::*;
use vstd::arithmetic::power2::pow2;
use crate::cells::{
    chars_equal, enum_index_of, enum_index_spec, normalize_cell, normalize_cell_spec,
    parse_u64_chars, parses_as_u64, str_to_chars, u64_value_of,
};
use crate::errors::EncodeError;
use crate::schema::{
    default_schema_model, get_default_schema, schema_models, schema_valid, validate_schema,
    ColModel, ColumnSchema,
};

verus! {

/// The bit of `vals[i]` at significance `b`, and zero past the end of
/// the rows: the `i`th entry of one bit-plane.
pub open spec fn plane_bit(vals: Seq<u64>, b: u32, i: int) -> nat {
    if 0 <= i < vals.len() {
        ((vals[i] as nat) / pow2(b as nat)) % 2
    } else {
        0
    }
}

/// The value of `cnt` consecutive plane bits starting at `start`, read
/// most significant first: the accumulator a packer builds bit by bit.
pub open spec fn chunk_val(vals: Seq<u64>, b: u32, start: int, cnt: nat) -> nat
    decreases cnt,
{
    if cnt == 0 {
        0
    } else {
        2 * chunk_val(vals, b, start, (cnt - 1) as nat) + plane_bit(vals, b, start + cnt - 1)
    }
}

/// The bytes of one bit-plane: plane bits packed most significant bit
/// first, eight per byte, the trailing byte zero-filled at the low end.
pub open spec fn plane_bytes(vals: Seq<u64>, b: u32) -> Seq<u8> {
    Seq::new(((vals.len() + 7) / 8) as nat, |i: int| chunk_val(vals, b, 8 * i, 8) as u8)
}

/// The bytes of one column: its bit-planes from the most significant
/// position down to zero, each starting a fresh byte.
pub open spec fn col_bytes(vals: Seq<u64>, bits: u32) -> Seq<u8>
    decreases bits,
{
    if bits == 0 {
        Seq::empty()
    } else {
        plane_bytes(vals, (bits - 1) as u32) + col_bytes(vals, (bits - 1) as u32)
    }
}

/// The packed bytes of the columns from index `i` on; columns are paired
/// with their bit widths positionally, and the shorter list rules.
pub open spec fn packed_from(cols: Seq<Seq<u64>>, bits: Seq<u32>, i: int) -> Seq<u8>
    decreases vstd::math::min(cols.len() as int, bits.len() as int) - i,
{
    let n = vstd::math::min(cols.len() as int, bits.len() as int);
    if i < 0 || i >= n {
        Seq::empty()
    } else {
        col_bytes(cols[i], bits[i]) + packed_from(cols, bits, i + 1)
    }
}

/// The whole bit-plane-major byte stream of a packed table.
pub open spec fn packed_bytes_spec(cols: Seq<Seq<u64>>, bits: Seq<u32>) -> Seq<u8> {
    packed_from(cols, bits, 0)
}

/// An accumulator of `cnt` bits stays below the `cnt`th power of two.
proof fn lemma_chunk_val_bound(vals: Seq<u64>, b: u32, start: int, cnt: nat)
    ensures
        chunk_val(vals, b, start, cnt) < pow2(cnt),
    decreases cnt,
{
    vstd::arithmetic::power2::lemma_pow2_pos(cnt);
    if cnt == 0 {
        vstd::arithmetic::power2::lemma2_to64();
    } else {
        lemma_chunk_val_bound(vals, b, start, (cnt - 1) as nat);
        vstd::arithmetic::power2::lemma_pow2_unfold(cnt);
        assert(plane_bit(vals, b, start + cnt - 1) < 2);
    }
}

/// Bits that are all zero at the low end of a chunk only scale the value
/// of the bits above them.
proof fn lemma_chunk_val_trailing_zeros(vals: Seq<u64>, b: u32, start: int, cnt: nat, m: nat)
    requires
        m <= cnt,
        forall|u: int| start + m <= u < start + cnt ==> #[trigger] plane_bit(vals, b, u) == 0,
    ensures
        chunk_val(vals, b, start, cnt) == chunk_val(vals, b, start, m) * pow2((cnt - m) as nat),
    decreases cnt,
{
    if cnt == m {
        vstd::arithmetic::power2::lemma2_to64();
        assert(chunk_val(vals, b, start, m) * pow2(0) == chunk_val(vals, b, start, m));
    } else {
        lemma_chunk_val_trailing_zeros(vals, b, start, (cnt - 1) as nat, m);
        vstd::arithmetic::power2::lemma_pow2_unfold((cnt - m) as nat);
        assert(plane_bit(vals, b, start + cnt - 1) == 0);
        let a = chunk_val(vals, b, start, m);
        let p1 = pow2((cnt - 1 - m) as nat);
        assert(chunk_val(vals, b, start, (cnt - 1) as nat) == a * p1);
        assert(chunk_val(vals, b, start, cnt) == 2 * (a * p1));
        assert(pow2((cnt - m) as nat) == 2 * p1);
        assert(2 * (a * p1) == a * (2 * p1)) by (nonlinear_arith);
    }
}

/// Packs row values column by column into the bit-plane-major byte
/// stream: for each column (most significant plane first) every row
/// contributes one bit, bytes fill most significant bit first, and each
/// plane is flushed to a fresh byte boundary.
pub fn pack_columnar_bitplanes(values_by_col: &[Vec<u64>], bits_by_col: &[u32]) -> (r: Vec<u8>)
    requires
        forall|c: int|
            0 <= c < vstd::math::min(values_by_col@.len() as int, bits_by_col@.len() as int) ==> (
            bits_by_col@[c] <= 64 || (#[trigger] values_by_col@[c])@.len() == 0),
    ensures
        r@ == packed_bytes_spec(
            values_by_col@.map_values(|v: Vec<u64>| v@),
            bits_by_col@,
        ),
{
    let ghost cols = values_by_col@.map_values(|v: Vec<u64>| v@);
    let ghost gbits = bits_by_col@;
    let ghost ncols = vstd::math::min(cols.len() as int, gbits.len() as int);
    let n_cols = if values_by_col.len() < bits_by_col.len() {
        values_by_col.len()
    } else {
        bits_by_col.len()
    };
    let mut out: Vec<u8> = Vec::new();
    let mut c: usize = 0;
    proof {
        assert(out@ + packed_from(cols, gbits, 0) =~= packed_from(cols, gbits, 0));
    }
    while c < n_cols
        invariant
            cols == values_by_col@.map_values(|v: Vec<u64>| v@),
            gbits == bits_by_col@,
            ncols == vstd::math::min(cols.len() as int, gbits.len() as int),
            n_cols == ncols,
            c <= n_cols,
            forall|cc: int|
                0 <= cc < ncols ==> (gbits[cc] <= 64 || (#[trigger] values_by_col@[cc])@.len()
                    == 0),
            out@ + packed_from(cols, gbits, c as int) == packed_from(cols, gbits, 0),
        decreases n_cols - c,
    {
        let vals = &values_by_col[c];
        let bits = bits_by_col[c];
        let ghost col_base = out@;
        let ghost vseq = cols[c as int];
        proof {
            assert(vseq == vals@);
        }
        let mut b: u32 = bits;
        while b > 0
            invariant
                vseq == vals@,
                bits <= 64 || vseq.len() == 0,
                b <= bits,
                out@ + col_bytes(vseq, b) == col_base + col_bytes(vseq, bits),
            decreases b,
        {
            b = b - 1;
            let ghost plane_base = out@;
            let ghost pbytes = plane_bytes(vseq, b);
            let mut acc: u8 = 0;
            let mut nbits: u32 = 0;
            let mut j: usize = 0;
            proof {
                assert(out@ =~= plane_base + pbytes.take(0));
            }
            while j < vals.len()
                invariant
                    vseq == vals@,
                    bits <= 64 || vseq.len() == 0,
                    b < bits,
                    j <= vseq.len(),
                    nbits == j % 8,
                    acc == chunk_val(vseq, b, j - nbits, nbits as nat),
                    pbytes == plane_bytes(vseq, b),
                    out@ == plane_base + pbytes.take((j / 8) as int),
                decreases vseq.len() - j,
            {
                proof {
                    vstd::arithmetic::power2::lemma2_to64();
                    vstd::bits::lemma_u64_shr_is_div(vals@[j as int], b as u64);
                    vstd::bits::lemma_u64_low_bits_mask_is_mod(
                        vals@[j as int] >> (b as u64),
                        1,
                    );
                    lemma_chunk_val_bound(vseq, b, j - nbits, nbits as nat);
                    vstd::arithmetic::power2::lemma_pow2_strictly_increases(nbits as nat, 8);
                }
                let v: u64 = vals[j];
                let bit: u8 = ((v >> (b as u64)) & 1) as u8;
                proof {
                    assert(bit == plane_bit(vseq, b, j as int));
                    assert((acc << 1u8) | bit == 2 * acc + bit) by (bit_vector)
                        requires
                            acc < 128,
                            bit < 2,
                    ;
                }
                acc = (acc << 1u8) | bit;
                nbits = nbits + 1;
                j = j + 1;
                proof {
                    assert(acc == chunk_val(vseq, b, j - nbits, nbits as nat));
                }
                if nbits == 8 {
                    proof {
                        assert(j % 8 == 0 && j >= 8);
                        assert((j - 8) / 8 == j / 8 - 1);
                        assert(8 * ((j - 8) / 8) == j - 8);
                        assert(pbytes[(j - 8) / 8] == chunk_val(vseq, b, j - 8, 8) as u8);
                    }
                    out.push(acc);
                    proof {
                        assert(out@ =~= plane_base + pbytes.take((j / 8) as int));
                    }
                    acc = 0;
                    nbits = 0;
                }
            }
            if nbits > 0 {
                proof {
                    lemma_chunk_val_bound(vseq, b, j - nbits, nbits as nat);
                    vstd::arithmetic::power2::lemma_pow2_strictly_increases(nbits as nat, 8);
                    vstd::arithmetic::power2::lemma2_to64();
                    assert(acc * pow2((8 - nbits) as nat) < pow2(8)) by {
                        vstd::arithmetic::power2::lemma_pow2_adds(
                            nbits as nat,
                            (8 - nbits) as nat,
                        );
                        assert(acc * pow2((8 - nbits) as nat) < pow2(nbits as nat) * pow2(
                            (8 - nbits) as nat,
                        )) by (nonlinear_arith)
                            requires
                                acc < pow2(nbits as nat),
                                pow2((8 - nbits) as nat) > 0,
                        ;
                        vstd::arithmetic::power2::lemma_pow2_pos((8 - nbits) as nat);
                    }
                    vstd::bits::lemma_u8_shl_is_mul(acc, (8 - nbits) as u8);
                    lemma_chunk_val_trailing_zeros(vseq, b, j - nbits, 8, nbits as nat);
                    assert(nbits == j % 8 && nbits > 0);
                    assert(8 * ((j - nbits) / 8) == j - nbits);
                    assert((j - nbits) / 8 == j / 8);
                    assert(pbytes.len() == (j + 7) / 8);
                    assert((j + 7) / 8 == j / 8 + 1);
                }
                let flushed: u8 = acc << ((8 - nbits) as u8);
                proof {
                    assert(flushed == chunk_val(vseq, b, j - nbits, 8) as u8);
                    assert(pbytes[(j / 8) as int] == flushed);
                }
                out.push(flushed);
                proof {
                    assert(out@ =~= plane_base + pbytes.take((j / 8) as int + 1));
                    assert(pbytes.take((j / 8) as int + 1) =~= pbytes);
                }
            } else {
                proof {
                    assert(j % 8 == 0);
                    assert(pbytes.take((j / 8) as int) =~= pbytes);
                }
            }
            proof {
                assert(out@ =~= plane_base + plane_bytes(vseq, b));
                assert(col_bytes(vseq, (b + 1) as u32) =~= plane_bytes(vseq, b) + col_bytes(
                    vseq,
                    b,
                ));
                assert(out@ + col_bytes(vseq, b) =~= plane_base + col_bytes(
                    vseq,
                    (b + 1) as u32,
                ));
            }
        }
        proof {
            assert(col_bytes(vseq, 0) =~= Seq::<u8>::empty());
            assert(out@ =~= col_base + col_bytes(vseq, bits));
            assert(packed_from(cols, gbits, c as int) =~= col_bytes(cols[c as int], gbits[c as int])
                + packed_from(cols, gbits, c + 1));
            assert(out@ + packed_from(cols, gbits, c + 1) =~= packed_from(cols, gbits, 0));
        }
        c = c + 1;
    }
    proof {
        assert(out@ =~= packed_from(cols, gbits, 0));
    }
    out
}

/// What the CSV reader yields on a byte input: the header record and
/// the data records, or nothing when the bytes are not readable as CSV
/// (a malformed record, or text that is not UTF-8).
pub uninterp spec fn csv_parsed(bytes: Seq<u8>) -> Option<(Seq<Seq<char>>, Seq<Seq<Seq<char>>>)>;

/// Relies on `csv::ReaderBuilder` and `csv::Reader` (`headers`,
/// `records`): with fixed settings, what the reader yields is a function
/// of the input bytes alone; any read error yields nothing.
#[verifier::external_body]
fn parse_csv_bytes(csv_bytes: &[u8]) -> (r: Option<(Vec<String>, Vec<Vec<String>>)>)
    ensures
        r is Some <==> csv_parsed(csv_bytes@) is Some,
        r matches Some(p) ==> csv_parsed(csv_bytes@) == Some((p.0.deep_view(), p.1.deep_view())),
{
    let mut reader = csv::ReaderBuilder::new().has_headers(true).from_reader(csv_bytes);
    let headers = match reader.headers() {
        Ok(h) => h.iter().map(|s| s.to_string()).collect(),
        Err(_) => return None,
    };
    let mut rows = Vec::new();
    for result in reader.records() {
        match result {
            Ok(record) => rows.push(record.iter().map(|s| s.to_string()).collect()),
            Err(_) => return None,
        }
    }
    Some((headers, rows))
}

/// Reads a CSV byte buffer into its header names and data rows; a
/// table with no data rows is refused.
pub fn read_csv(csv_bytes: &[u8]) -> (r: Result<(Vec<String>, Vec<Vec<String>>), EncodeError>)
    ensures
        r is Ok <==> (csv_parsed(csv_bytes@) matches Some(p) && p.1.len() > 0),
        r matches Ok(p) ==> csv_parsed(csv_bytes@) == Some((p.0.deep_view(), p.1.deep_view())),
        r is Err ==> r == Err::<(Vec<String>, Vec<Vec<String>>), EncodeError>(
            EncodeError::InputError,
        ),
{
    match parse_csv_bytes(csv_bytes) {
        None => Err(EncodeError::InputError),
        Some((headers, rows)) => {
            if rows.len() == 0 {
                Err(EncodeError::InputError)
            } else {
                Ok((headers, rows))
            }
        },
    }
}

/// What the stream compressor yields for a byte buffer at a compression
/// level: one fixed compressed image of it.
pub uninterp spec fn zstd_compressed(data: Seq<u8>, level: int) -> Seq<u8>;

/// Relies on `zstd::stream::encode_all`: compressing an in-memory buffer
/// at a fixed level is a function of the input bytes alone, and the call
/// succeeds. Its only error paths are an unacceptable compression level
/// (levels 0 through 22 are accepted), loading a dictionary (none is
/// used here), and reading or writing; a byte slice reads and a vector
/// writes without error.
#[verifier::external_body]
fn compress_bytes(data: &[u8], level: i32) -> (r: Vec<u8>)
    requires
        0 <= level <= 22,
    ensures
        r@ == zstd_compressed(data@, level as int),
{
    zstd::stream::encode_all(data, level).unwrap()
}

/// The container's eight magic bytes: the ASCII tag `SCOUTPK5`.
pub open spec fn magic_bytes() -> Seq<u8> {
    seq![0x53u8, 0x43u8, 0x4fu8, 0x55u8, 0x54u8, 0x50u8, 0x4bu8, 0x35u8]
}

/// A 32-bit count as four big-endian bytes.
pub open spec fn be32_bytes(n: u32) -> Seq<u8> {
    seq![
        ((n >> 24) & 0xff) as u8,
        ((n >> 16) & 0xff) as u8,
        ((n >> 8) & 0xff) as u8,
        (n & 0xff) as u8,
    ]
}

/// The position a column reads its cells from: the index of the last
/// header equal to the column's name, as a lookup table built by
/// inserting the headers in order would answer.
pub open spec fn header_index_of(headers: Seq<Seq<char>>, name: Seq<char>) -> Option<int>
    decreases headers.len(),
{
    if headers.len() == 0 {
        None
    } else if headers.last() == name {
        Some(headers.len() - 1)
    } else {
        header_index_of(headers.drop_last(), name)
    }
}

/// The value one cell contributes: an integer column parses and
/// range-checks the normalized text, an enumeration column looks it up.
pub open spec fn cell_value_spec(col: ColModel, raw: Seq<char>) -> Option<u64> {
    let cell = normalize_cell_spec(raw);
    if col.kind == crate::schema::ColumnKind::Int {
        if parses_as_u64(cell) && u64_value_of(cell) <= col.int_max {
            Some(u64_value_of(cell) as u64)
        } else {
            None
        }
    } else {
        match enum_index_spec(col.values, cell) {
            Some(i) => Some(i as u64),
            None => None,
        }
    }
}

/// Every row offers this column a readable cell.
pub open spec fn col_ok(col: ColModel, idx: int, rows: Seq<Seq<Seq<char>>>) -> bool {
    forall|r: int|
        0 <= r < rows.len() ==> idx < (#[trigger] rows[r]).len() && cell_value_spec(
            col,
            rows[r][idx],
        ) is Some
}

/// The column's value for every row, in row order.
pub open spec fn col_values(col: ColModel, idx: int, rows: Seq<Seq<Seq<char>>>) -> Seq<u64> {
    Seq::new(
        rows.len(),
        |r: int|
            match cell_value_spec(col, rows[r][idx]) {
                Some(v) => v,
                None => 0u64,
            },
    )
}

/// The value lists of the carrying columns (bit width above zero) from
/// schema position `i` on, in schema order.
pub open spec fn used_values_from(
    schema: Seq<ColModel>,
    headers: Seq<Seq<char>>,
    rows: Seq<Seq<Seq<char>>>,
    i: int,
) -> Seq<Seq<u64>>
    decreases schema.len() - i,
{
    if i < 0 || i >= schema.len() {
        Seq::empty()
    } else {
        let rest = used_values_from(schema, headers, rows, i + 1);
        if schema[i].bits == 0 {
            rest
        } else {
            seq![
                col_values(
                    schema[i],
                    header_index_of(headers, schema[i].name)->Some_0,
                    rows,
                ),
            ] + rest
        }
    }
}

/// The bit widths of the carrying columns from schema position `i` on.
pub open spec fn used_bits_from(schema: Seq<ColModel>, i: int) -> Seq<u32>
    decreases schema.len() - i,
{
    if i < 0 || i >= schema.len() {
        Seq::empty()
    } else {
        let rest = used_bits_from(schema, i + 1);
        if schema[i].bits == 0 {
            rest
        } else {
            seq![schema[i].bits] + rest
        }
    }
}

/// The table can be encoded against the schema: every column's header
/// is present, and every carrying column can read all its cells.
pub open spec fn input_ok(
    schema: Seq<ColModel>,
    headers: Seq<Seq<char>>,
    rows: Seq<Seq<Seq<char>>>,
) -> bool {
    &&& forall|c: int|
        0 <= c < schema.len() ==> header_index_of(headers, (#[trigger] schema[c]).name) is Some
    &&& forall|c: int|
        0 <= c < schema.len() && (#[trigger] schema[c]).bits != 0 ==> col_ok(
            schema[c],
            header_index_of(headers, schema[c].name)->Some_0,
            rows,
        )
}

/// The whole packed container for a table: magic tag, big-endian row
/// count, then the compressed bit-plane stream.
pub open spec fn container_bytes(
    count: u32,
    schema: Seq<ColModel>,
    headers: Seq<Seq<char>>,
    rows: Seq<Seq<Seq<char>>>,
) -> Seq<u8> {
    magic_bytes() + be32_bytes(count) + zstd_compressed(
        packed_bytes_spec(used_values_from(schema, headers, rows, 0), used_bits_from(schema, 0)),
        22,
    )
}

/// A found header position is a real index into the header list.
pub proof fn lemma_header_index_bounds(headers: Seq<Seq<char>>, name: Seq<char>)
    requires
        header_index_of(headers, name) is Some,
    ensures
        0 <= header_index_of(headers, name)->Some_0 < headers.len(),
    decreases headers.len(),
{
    if headers.len() > 0 && headers.last() != name {
        lemma_header_index_bounds(headers.drop_last(), name);
    }
}

/// Whether two tables of the same shape agree on every cell that a
/// carrying column (bit width above zero) reads.
pub open spec fn carrying_cells_agree(
    schema: Seq<ColModel>,
    headers: Seq<Seq<char>>,
    rows1: Seq<Seq<Seq<char>>>,
    rows2: Seq<Seq<Seq<char>>>,
) -> bool {
    &&& rows1.len() == rows2.len()
    &&& forall|r: int| 0 <= r < rows1.len() ==> (#[trigger] rows1[r]).len() == rows2[r].len()
    &&& forall|c: int, r: int|
        #![trigger schema[c], rows1[r]]
        (0 <= c < schema.len() && schema[c].bits != 0 && 0 <= r < rows1.len()
            && header_index_of(headers, schema[c].name) is Some) ==> {
            let idx = header_index_of(headers, schema[c].name)->Some_0;
            0 <= idx < rows1[r].len() ==> rows1[r][idx] == rows2[r][idx]
        }
}

/// One carrying column reads the same values from two agreeing tables.
proof fn lemma_col_agree(
    schema: Seq<ColModel>,
    headers: Seq<Seq<char>>,
    rows1: Seq<Seq<Seq<char>>>,
    rows2: Seq<Seq<Seq<char>>>,
    c: int,
)
    requires
        carrying_cells_agree(schema, headers, rows1, rows2),
        0 <= c < schema.len(),
        schema[c].bits != 0,
        header_index_of(headers, schema[c].name) is Some,
    ensures
        col_ok(schema[c], header_index_of(headers, schema[c].name)->Some_0, rows1) == col_ok(
            schema[c],
            header_index_of(headers, schema[c].name)->Some_0,
            rows2,
        ),
        col_ok(schema[c], header_index_of(headers, schema[c].name)->Some_0, rows1)
            ==> col_values(schema[c], header_index_of(headers, schema[c].name)->Some_0, rows1)
            == col_values(schema[c], header_index_of(headers, schema[c].name)->Some_0, rows2),
{
    let idx = header_index_of(headers, schema[c].name)->Some_0;
    lemma_header_index_bounds(headers, schema[c].name);
    assert forall|r: int| 0 <= r < rows1.len() implies (idx < (#[trigger] rows1[r]).len()
        && cell_value_spec(schema[c], rows1[r][idx]) is Some) == (idx < rows2[r].len()
        && cell_value_spec(schema[c], rows2[r][idx]) is Some) by {
        let sc = schema[c];
        let rr = rows1[r];
        assert(rows1[r].len() == rows2[r].len());
        if 0 <= idx < rows1[r].len() {
            assert(rows1[r][idx] == rows2[r][idx]);
        }
    }
    if col_ok(schema[c], idx, rows1) {
        assert forall|r: int| 0 <= r < rows2.len() implies idx < (#[trigger] rows2[r]).len()
            && cell_value_spec(schema[c], rows2[r][idx]) is Some by {
            assert(idx < rows1[r].len() && cell_value_spec(schema[c], rows1[r][idx]) is Some);
        }
        assert(col_ok(schema[c], idx, rows2));
    } else if col_ok(schema[c], idx, rows2) {
        assert forall|r: int| 0 <= r < rows1.len() implies idx < (#[trigger] rows1[r]).len()
            && cell_value_spec(schema[c], rows1[r][idx]) is Some by {
            assert(idx < rows2[r].len() && cell_value_spec(schema[c], rows2[r][idx]) is Some);
        }
        assert(col_ok(schema[c], idx, rows1));
    }
    if col_ok(schema[c], idx, rows1) {
        assert(col_values(schema[c], idx, rows1) =~= col_values(schema[c], idx, rows2)) by {
            assert forall|r: int| 0 <= r < rows1.len() implies col_values(schema[c], idx, rows1)[r]
                == col_values(schema[c], idx, rows2)[r] by {
                let sc = schema[c];
                let rr = rows1[r];
                assert(idx < rows1[r].len());
                assert(rows1[r][idx] == rows2[r][idx]);
            }
        }
    }
}

/// The carrying columns read the same value lists from two agreeing
/// tables, all the way down the schema.
proof fn lemma_used_values_agree(
    schema: Seq<ColModel>,
    headers: Seq<Seq<char>>,
    rows1: Seq<Seq<Seq<char>>>,
    rows2: Seq<Seq<Seq<char>>>,
    i: int,
)
    requires
        carrying_cells_agree(schema, headers, rows1, rows2),
        input_ok(schema, headers, rows1),
        0 <= i <= schema.len(),
    ensures
        used_values_from(schema, headers, rows1, i) == used_values_from(schema, headers, rows2, i),
    decreases schema.len() - i,
{
    if i < schema.len() {
        lemma_used_values_agree(schema, headers, rows1, rows2, i + 1);
        if schema[i].bits != 0 {
            assert(header_index_of(headers, schema[i].name) is Some);
            assert(col_ok(schema[i], header_index_of(headers, schema[i].name)->Some_0, rows1));
            lemma_col_agree(schema, headers, rows1, rows2, i);
        }
    }
}

/// A column with a zero bit width never influences the encode: its
/// cells are neither validated nor packed. Two tables of the same shape
/// that agree on every cell the carrying columns read are accepted or
/// rejected together, and when accepted they pack to the same container.
pub proof fn lemma_zero_bit_cells_ignored(
    schema: Seq<ColModel>,
    headers: Seq<Seq<char>>,
    rows1: Seq<Seq<Seq<char>>>,
    rows2: Seq<Seq<Seq<char>>>,
)
    requires
        carrying_cells_agree(schema, headers, rows1, rows2),
    ensures
        input_ok(schema, headers, rows1) == input_ok(schema, headers, rows2),
        input_ok(schema, headers, rows1) ==> container_bytes(
            rows1.len() as u32,
            schema,
            headers,
            rows1,
        ) == container_bytes(rows2.len() as u32, schema, headers, rows2),
{
    assert forall|c: int|
        0 <= c < schema.len() && (#[trigger] schema[c]).bits != 0 && header_index_of(
            headers,
            schema[c].name,
        ) is Some implies col_ok(
        schema[c],
        header_index_of(headers, schema[c].name)->Some_0,
        rows1,
    ) == col_ok(schema[c], header_index_of(headers, schema[c].name)->Some_0, rows2) by {
        lemma_col_agree(schema, headers, rows1, rows2, c);
    }
    if input_ok(schema, headers, rows1) {
        lemma_used_values_agree(schema, headers, rows1, rows2, 0);
        assert(input_ok(schema, headers, rows2));
    } else if input_ok(schema, headers, rows2) {
        assert(input_ok(schema, headers, rows1));
    }
}

/// The schema an encode call works against: the given one, or the
/// built-in default.
pub open spec fn chosen_models(schema: Option<&[ColumnSchema]>) -> Seq<ColModel> {
    match schema {
        Some(s) => schema_models(s@),
        None => default_schema_model(),
    }
}

/// Finds the position a named column reads from, later duplicate
/// headers shadowing earlier ones.
fn find_header_index(headers: &[String], name: &[char]) -> (r: Option<usize>)
    ensures
        r is Some <==> header_index_of(headers.deep_view(), name@) is Some,
        r matches Some(i) ==> Some(i as int) == header_index_of(headers.deep_view(), name@) && i
            < headers@.len(),
{
    let ghost hd = headers.deep_view();
    let mut j: usize = headers.len();
    proof {
        assert(hd.take(hd.len() as int) =~= hd);
        assert(hd.len() == headers@.len());
    }
    while j > 0
        invariant
            j <= headers@.len(),
            hd == headers.deep_view(),
            hd.len() == headers@.len(),
            header_index_of(hd, name@) == header_index_of(hd.take(j as int), name@),
        decreases j,
    {
        j = j - 1;
        let header_chars = str_to_chars(headers[j].as_str());
        proof {
            assert(header_chars@ == hd[j as int]);
            assert(hd.take(j + 1).last() == hd[j as int]);
            assert(hd.take(j + 1).drop_last() =~= hd.take(j as int));
        }
        if chars_equal(header_chars.as_slice(), name) {
            proof {
                assert(header_index_of(hd.take(j + 1), name@) == Some(j as int));
            }
            return Some(j);
        }
    }
    proof {
        assert(hd.take(0) =~= Seq::<Seq<char>>::empty());
    }
    None
}

/// Reads one cell against one column.
fn cell_value(col: &ColumnSchema, raw: &str) -> (r: Option<u64>)
    ensures
        r == cell_value_spec(col@, raw@),
{
    let cell = normalize_cell(raw);
    match col {
        ColumnSchema::Int { int_max, .. } => {
            match parse_u64_chars(cell.as_slice()) {
                Some(v) => {
                    if v <= *int_max {
                        Some(v)
                    } else {
                        None
                    }
                },
                None => None,
            }
        },
        ColumnSchema::Enum { values, .. } => {
            let r = enum_index_of(values, cell.as_slice());
            proof {
                if r is Some {
                    assert(Some(r->Some_0 as int) == enum_index_spec(
                        values.deep_view(),
                        cell@,
                    ));
                }
            }
            r
        },
    }
}

/// Packs a parsed table into the versioned container against the given
/// schema, or the built-in default when none is given.
#[verifier::rlimit(60)]
pub fn encode(headers: &[String], rows: &[Vec<String>], schema: Option<&[ColumnSchema]>) -> (r:
    Result<Vec<u8>, EncodeError>)
    requires
        rows@.len() == 0 || forall|c: int|
            0 <= c < chosen_models(schema).len() ==> (#[trigger] chosen_models(schema)[c]).bits
                <= 64,
    ensures
        r is Ok <==> (schema_valid(chosen_models(schema)) && input_ok(
            chosen_models(schema),
            headers.deep_view(),
            rows.deep_view(),
        )),
        !schema_valid(chosen_models(schema)) ==> r == Err::<Vec<u8>, EncodeError>(
            EncodeError::SchemaError,
        ),
        (schema_valid(chosen_models(schema)) && !input_ok(
            chosen_models(schema),
            headers.deep_view(),
            rows.deep_view(),
        )) ==> r == Err::<Vec<u8>, EncodeError>(EncodeError::InputError),
        r matches Ok(bytes) ==> bytes@ == container_bytes(
            rows@.len() as u32,
            chosen_models(schema),
            headers.deep_view(),
            rows.deep_view(),
        ),
{
    match schema {
        Some(s) => {
            proof {
                assert(chosen_models(schema) == schema_models(s@));
            }
            encode_with(headers, rows, s)
        },
        None => {
            let default = get_default_schema();
            proof {
                assert(chosen_models(schema) == default_schema_model());
            }
            encode_with(headers, rows, default.as_slice())
        },
    }
}

/// `encode` against an explicit schema.
fn encode_with(headers: &[String], rows: &[Vec<String>], schema: &[ColumnSchema]) -> (r: Result<
    Vec<u8>,
    EncodeError,
>)
    requires
        rows@.len() == 0 || forall|c: int|
            0 <= c < schema_models(schema@).len() ==> (#[trigger] schema_models(schema@)[c]).bits
                <= 64,
    ensures
        r is Ok <==> (schema_valid(schema_models(schema@)) && input_ok(
            schema_models(schema@),
            headers.deep_view(),
            rows.deep_view(),
        )),
        !schema_valid(schema_models(schema@)) ==> r == Err::<Vec<u8>, EncodeError>(
            EncodeError::SchemaError,
        ),
        (schema_valid(schema_models(schema@)) && !input_ok(
            schema_models(schema@),
            headers.deep_view(),
            rows.deep_view(),
        )) ==> r == Err::<Vec<u8>, EncodeError>(EncodeError::InputError),
        r matches Ok(bytes) ==> bytes@ == container_bytes(
            rows@.len() as u32,
            schema_models(schema@),
            headers.deep_view(),
            rows.deep_view(),
        ),
{
    let ghost models = schema_models(schema@);
    let ghost hd = headers.deep_view();
    let ghost rd = rows.deep_view();
    match validate_schema(schema) {
        Ok(()) => (),
        Err(e) => {
            return Err(e);
        },
    }
    // Every schema column must have a header, whether or not it carries
    // bits.
    let mut c: usize = 0;
    while c < schema.len()
        invariant
            c <= schema@.len(),
            models == schema_models(schema@),
            models.len() == schema@.len(),
            schema_valid(models),
            hd == headers.deep_view(),
            forall|cc: int|
                0 <= cc < c ==> header_index_of(hd, (#[trigger] models[cc]).name) is Some,
        decreases schema@.len() - c,
    {
        let col = &schema[c];
        let name_chars = str_to_chars(col.name());
        proof {
            assert(models[c as int] == schema@[c as int]@);
        }
        if find_header_index(headers, name_chars.as_slice()).is_none() {
            proof {
                assert(header_index_of(hd, models[c as int].name) is None);
            }
            return Err(EncodeError::InputError);
        }
        c = c + 1;
    }
    // Read the carrying columns' values, row by row.
    let mut values_by_col: Vec<Vec<u64>> = Vec::new();
    let mut bits_by_col: Vec<u32> = Vec::new();
    let mut c2: usize = 0;
    proof {
        assert(values_by_col@.map_values(|v: Vec<u64>| v@) + used_values_from(models, hd, rd, 0)
            =~= used_values_from(models, hd, rd, 0));
        assert(bits_by_col@ + used_bits_from(models, 0) =~= used_bits_from(models, 0));
    }
    while c2 < schema.len()
        invariant
            c2 <= schema@.len(),
            models == schema_models(schema@),
            models.len() == schema@.len(),
            schema_valid(models),
            hd == headers.deep_view(),
            rd == rows.deep_view(),
            rd.len() == rows@.len(),
            rows@.len() == 0 || forall|cc: int|
                0 <= cc < models.len() ==> (#[trigger] models[cc]).bits <= 64,
            forall|cc: int|
                0 <= cc < models.len() ==> header_index_of(
                    hd,
                    (#[trigger] models[cc]).name,
                ) is Some,
            forall|cc: int|
                0 <= cc < c2 && (#[trigger] models[cc]).bits != 0 ==> col_ok(
                    models[cc],
                    header_index_of(hd, models[cc].name)->Some_0,
                    rd,
                ),
            values_by_col@.map_values(|v: Vec<u64>| v@) + used_values_from(models, hd, rd, c2 as int)
                == used_values_from(models, hd, rd, 0),
            bits_by_col@ + used_bits_from(models, c2 as int) == used_bits_from(models, 0),
            values_by_col@.len() == bits_by_col@.len(),
            forall|k: int|
                0 <= k < bits_by_col@.len() ==> (#[trigger] bits_by_col@[k]) <= 64 || (
                values_by_col@[k])@.len() == 0,
        decreases schema@.len() - c2,
    {
        let col = &schema[c2];
        let ghost prev_vals = values_by_col@.map_values(|v: Vec<u64>| v@);
        let ghost prev_bits = bits_by_col@;
        proof {
            assert(models[c2 as int] == schema@[c2 as int]@);
        }
        if col.bits() == 0 {
            proof {
                assert(used_values_from(models, hd, rd, c2 as int) == used_values_from(
                    models,
                    hd,
                    rd,
                    c2 + 1,
                ));
                assert(used_bits_from(models, c2 as int) == used_bits_from(models, c2 + 1));
            }
            c2 = c2 + 1;
            continue ;
        }
        let name_chars = str_to_chars(col.name());
        let csv_col_idx = match find_header_index(headers, name_chars.as_slice()) {
            Some(i) => i,
            None => {
                proof {
                    assert(header_index_of(hd, models[c2 as int].name) is Some);
                    assert(false);
                }
                return Err(EncodeError::InputError);
            },
        };
        let ghost gidx = header_index_of(hd, models[c2 as int].name)->Some_0;
        let ghost target = col_values(models[c2 as int], gidx, rd);
        let mut col_vals: Vec<u64> = Vec::new();
        let mut r_i: usize = 0;
        while r_i < rows.len()
            invariant
                r_i <= rows@.len(),
                rd == rows.deep_view(),
                rd.len() == rows@.len(),
                csv_col_idx as int == gidx,
                *col == schema@[c2 as int],
                c2 < schema@.len(),
                models == schema_models(schema@),
                models.len() == schema@.len(),
                schema_valid(models),
                gidx == header_index_of(hd, models[c2 as int].name)->Some_0,
                models[c2 as int].bits != 0,
                hd == headers.deep_view(),
                target == col_values(models[c2 as int], gidx, rd),
                col_vals@ == target.take(r_i as int),
                forall|rr: int|
                    0 <= rr < r_i ==> gidx < (#[trigger] rd[rr]).len() && cell_value_spec(
                        models[c2 as int],
                        rd[rr][gidx],
                    ) is Some,
            decreases rows@.len() - r_i,
        {
            let row = &rows[r_i];
            proof {
                assert(rd[r_i as int] == rows@[r_i as int].deep_view());
                assert(rd[r_i as int].len() == rows@[r_i as int]@.len());
            }
            if csv_col_idx >= row.len() {
                proof {
                    assert(!col_ok(models[c2 as int], gidx, rd));
                    assert(!input_ok(models, hd, rd));
                }
                return Err(EncodeError::InputError);
            }
            let value = match cell_value(col, row[csv_col_idx].as_str()) {
                Some(v) => v,
                None => {
                    proof {
                        assert(rd[r_i as int][gidx] == rows@[r_i as int]@[gidx].view());
                        assert(!col_ok(models[c2 as int], gidx, rd));
                        assert(!input_ok(models, hd, rd));
                    }
                    return Err(EncodeError::InputError);
                },
            };
            proof {
                assert(rd[r_i as int][gidx] == rows@[r_i as int]@[gidx].view());
            }
            col_vals.push(value);
            proof {
                assert(col_vals@ =~= target.take(r_i + 1));
            }
            r_i = r_i + 1;
        }
        proof {
            assert(col_vals@ =~= target);
        }
        let bits = col.bits();
        values_by_col.push(col_vals);
        bits_by_col.push(bits);
        proof {
            assert(col_ok(models[c2 as int], gidx, rd));
            assert(used_values_from(models, hd, rd, c2 as int) == seq![target] + used_values_from(
                models,
                hd,
                rd,
                c2 + 1,
            ));
            assert(used_bits_from(models, c2 as int) == seq![models[c2 as int].bits]
                + used_bits_from(models, c2 + 1));
            assert(values_by_col@.map_values(|v: Vec<u64>| v@) =~= prev_vals.push(target));
            assert(values_by_col@.map_values(|v: Vec<u64>| v@) + used_values_from(
                models,
                hd,
                rd,
                c2 + 1,
            ) =~= used_values_from(models, hd, rd, 0));
            assert(bits_by_col@ + used_bits_from(models, c2 + 1) =~= used_bits_from(models, 0));
            if rows@.len() > 0 {
                assert(models[c2 as int].bits <= 64);
            } else {
                assert(target.len() == 0);
            }
        }
        c2 = c2 + 1;
    }
    proof {
        assert(used_values_from(models, hd, rd, models.len() as int) =~= Seq::<Seq<u64>>::empty());
        assert(used_bits_from(models, models.len() as int) =~= Seq::<u32>::empty());
        assert(values_by_col@.map_values(|v: Vec<u64>| v@) =~= used_values_from(models, hd, rd, 0));
        assert(bits_by_col@ =~= used_bits_from(models, 0));
        assert(input_ok(models, hd, rd));
    }
    let data_bytes = pack_columnar_bitplanes(values_by_col.as_slice(), bits_by_col.as_slice());
    let compressed = compress_bytes(data_bytes.as_slice(), 22);
    let num_rows = rows.len();
    let count: u32 = #[verifier::truncate] (num_rows as u32);
    let mut packed: Vec<u8> = Vec::new();
    packed.push(0x53);
    packed.push(0x43);
    packed.push(0x4f);
    packed.push(0x55);
    packed.push(0x54);
    packed.push(0x50);
    packed.push(0x4b);
    packed.push(0x35);
    packed.push(((count >> 24u32) & 0xff) as u8);
    packed.push(((count >> 16u32) & 0xff) as u8);
    packed.push(((count >> 8u32) & 0xff) as u8);
    packed.push((count & 0xff) as u8);
    proof {
        assert(packed@ =~= magic_bytes() + be32_bytes(count));
    }
    let ghost before_payload = packed@;
    packed.extend_from_slice(compressed.as_slice());
    proof {
        assert(packed@ == before_payload + compressed@);
        assert(packed@ =~= container_bytes(rows@.len() as u32, models, hd, rd));
    }
    Ok(packed)
}

} // verus!
