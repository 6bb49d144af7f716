//! Parser for the entry-point map of a clip information file.
use vstd::prelude::*;

verus! {

/// One entry point: a presentation time in ticks of the 45 kHz clock and a
/// byte offset counted in 192-byte transport packets.
#[derive(Clone, Copy, Debug, PartialEq, Eq, Structural)]
pub struct Combined {
    pub pts: u64,
    pub spn: u32,
}

/// The entry points of the first elementary-stream table of a clip.
#[derive(Debug)]
pub struct CLPIResult {
    pub stream_pid: u16,
    pub combined: Vec<Combined>,
}

/// Why an entry-point map could not be parsed.
#[derive(Clone, Copy, Debug, PartialEq, Eq, Structural)]
pub enum ParseError {
    /// A field or table extends past the end of the buffer.
    Truncated,
    /// The map declares no elementary-stream table.
    NoStreamTable,
    /// A coarse entry points past the end of the fine table.
    FineIndexOutOfRange,
}

/// Big-endian 32-bit integer stored at `at`.
pub open spec fn be_u32(b: Seq<u8>, at: int) -> u32 {
    ((b[at] as u32) << 24u32) | ((b[at + 1] as u32) << 16u32) | ((b[at + 2] as u32) << 8u32) | (
    b[at + 3] as u32)
}

/// Big-endian 64-bit integer stored at `at`.
pub open spec fn be_u64(b: Seq<u8>, at: int) -> u64 {
    ((be_u32(b, at) as u64) << 32u64) | (be_u32(b, at + 4) as u64)
}

/// First eight bytes of the first stream table's header.
pub open spec fn header_word(b: Seq<u8>) -> u64 {
    be_u64(b, 4)
}

pub open spec fn spec_stream_pid(b: Seq<u8>) -> u16 {
    (header_word(b) >> 48u64) as u16
}

pub open spec fn spec_coarse_count(b: Seq<u8>) -> u64 {
    (header_word(b) >> 18u64) & 0xFFFFu64
}

pub open spec fn spec_fine_count(b: Seq<u8>) -> u64 {
    header_word(b) & 0x3FFFFu64
}

/// Position of the secondary pointer that holds the fine table's offset.
pub open spec fn map_pos(b: Seq<u8>) -> int {
    be_u32(b, 12) + 2
}

pub open spec fn coarse_pos(b: Seq<u8>) -> int {
    map_pos(b) + 4
}

pub open spec fn fine_pos(b: Seq<u8>) -> int {
    map_pos(b) + be_u32(b, map_pos(b))
}

pub open spec fn coarse_word(b: Seq<u8>, i: int) -> u64 {
    be_u64(b, coarse_pos(b) + 8 * i)
}

pub open spec fn coarse_fine_start(b: Seq<u8>, i: int) -> u64 {
    coarse_word(b, i) >> 46u64
}

pub open spec fn coarse_pts(b: Seq<u8>, i: int) -> u64 {
    (coarse_word(b, i) >> 32u64) & 0x3FFFu64
}

pub open spec fn coarse_spn(b: Seq<u8>, i: int) -> u32 {
    (coarse_word(b, i) & 0xFFFF_FFFFu64) as u32
}

pub open spec fn fine_word(b: Seq<u8>, j: int) -> u32 {
    be_u32(b, fine_pos(b) + 4 * j)
}

pub open spec fn fine_pts(b: Seq<u8>, j: int) -> u32 {
    (fine_word(b, j) >> 17u32) & 0x7FFu32
}

pub open spec fn fine_spn(b: Seq<u8>, j: int) -> u32 {
    fine_word(b, j) & 0x1FFFFu32
}

/// High-order part of coarse entry `i`'s byte offset.
pub open spec fn coarse_window(b: Seq<u8>, i: int) -> u32 {
    coarse_spn(b, i) & !0x1FFFFu32
}

/// The entry point made of coarse entry `i` and fine entry `j`.
pub open spec fn entry_at(b: Seq<u8>, i: int, j: int) -> Combined {
    Combined {
        pts: (((coarse_pts(b, i) & !1u64) << 18u64) + ((fine_pts(b, j) as u64) << 8u64)) as u64,
        spn: (coarse_window(b, i) + fine_spn(b, j)) as u32,
    }
}

pub open spec fn group_start(b: Seq<u8>, i: int) -> int {
    coarse_fine_start(b, i) as int
}

/// End (exclusive) of the fine entries that belong to coarse entry `i`.
pub open spec fn group_end(b: Seq<u8>, i: int) -> int {
    if i + 1 < spec_coarse_count(b) {
        coarse_fine_start(b, i + 1) as int
    } else {
        spec_fine_count(b) as int
    }
}

pub open spec fn group_len(b: Seq<u8>, i: int) -> nat {
    if group_start(b, i) < group_end(b, i) {
        (group_end(b, i) - group_start(b, i)) as nat
    } else {
        0
    }
}

/// The entry points that coarse entry `i` contributes, in fine-table order.
pub open spec fn group(b: Seq<u8>, i: int) -> Seq<Combined> {
    Seq::new(group_len(b, i), |k: int| entry_at(b, i, group_start(b, i) + k))
}

/// The entry points of the first `n` coarse entries, concatenated.
pub open spec fn merged(b: Seq<u8>, n: int) -> Seq<Combined>
    decreases n,
{
    if n <= 0 {
        Seq::empty()
    } else {
        merged(b, n - 1) + group(b, n - 1)
    }
}

pub open spec fn tables_fit(b: Seq<u8>) -> bool {
    &&& b.len() >= 16
    &&& map_pos(b) + 4 <= b.len()
    &&& coarse_pos(b) + 8 * spec_coarse_count(b) <= b.len()
    &&& fine_pos(b) + 4 * spec_fine_count(b) <= b.len()
}

pub open spec fn fine_starts_in_range(b: Seq<u8>) -> bool {
    forall|i: int|
        0 <= i < spec_coarse_count(b) ==> #[trigger] coarse_fine_start(b, i)
            <= spec_fine_count(b)
}

/// What parsing the CPI payload `b` yields: the stream PID and entry points
/// of the first stream table, or the reason it fails.
pub open spec fn parse_cpi_spec(b: Seq<u8>) -> Result<(u16, Seq<Combined>), ParseError> {
    if b.len() < 4 {
        Err(ParseError::Truncated)
    } else if b[3] == 0 {
        Err(ParseError::NoStreamTable)
    } else if !tables_fit(b) {
        Err(ParseError::Truncated)
    } else if !fine_starts_in_range(b) {
        Err(ParseError::FineIndexOutOfRange)
    } else {
        Ok((spec_stream_pid(b), merged(b, spec_coarse_count(b) as int)))
    }
}

pub open spec fn result_matches(
    r: Result<CLPIResult, ParseError>,
    s: Result<(u16, Seq<Combined>), ParseError>,
) -> bool {
    match (r, s) {
        (Ok(v), Ok((pid, entries))) => v.stream_pid == pid && v.combined@ == entries,
        (Err(e), Err(f)) => e == f,
        _ => false,
    }
}

fn read_be_u32(b: &[u8], at: usize) -> (r: u32)
    requires
        at + 4 <= b@.len(),
    ensures
        r == be_u32(b@, at as int),
{
    ((b[at] as u32) << 24u32) | ((b[at + 1] as u32) << 16u32) | ((b[at + 2] as u32) << 8u32) | (
    b[at + 3] as u32)
}

fn read_be_u64(b: &[u8], at: usize) -> (r: u64)
    requires
        at + 8 <= b@.len(),
    ensures
        r == be_u64(b@, at as int),
{
    let _n = b.len();
    ((read_be_u32(b, at) as u64) << 32u64) | (read_be_u32(b, at + 4) as u64)
}

proof fn lemma_entry_fits(cs: u32, fs: u32, cp: u64, fp: u32)
    ensures
        (cs & !0x1FFFFu32) as int + (fs & 0x1FFFFu32) as int <= u32::MAX,
        (((cp & 0x3FFFu64) & !1u64) << 18u64) as int + (((((fp >> 17u32) & 0x7FFu32) as u64)
            << 8u64) as int) <= u64::MAX,
{
    assert((cs & !0x1FFFFu32) <= 0xFFFE0000u32) by (bit_vector);
    assert((fs & 0x1FFFFu32) <= 0x1FFFFu32) by (bit_vector);
    assert((((cp & 0x3FFFu64) & !1u64) << 18u64) <= 0x1_0000_0000u64) by (bit_vector);
    assert(((((fp >> 17u32) & 0x7FFu32) as u64) << 8u64) <= 0x8_0000u64) by (bit_vector);
}

/// Parses a CPI payload (the bytes after its length prefix) into the entry
/// points of its first elementary-stream table.
pub fn parse_cpi(buf: &[u8]) -> (r: Result<CLPIResult, ParseError>)
    ensures
        result_matches(r, parse_cpi_spec(buf@)),
{
    let len = buf.len() as u64;
    if len < 4 {
        return Err(ParseError::Truncated);
    }
    if buf[3] == 0 {
        return Err(ParseError::NoStreamTable);
    }
    if len < 16 {
        return Err(ParseError::Truncated);
    }
    let header = read_be_u64(buf, 4);
    let stream_pid = (header >> 48u64) as u16;
    let coarse_count = (header >> 18u64) & 0xFFFFu64;
    let fine_count = header & 0x3FFFFu64;
    assert(coarse_count <= 0xFFFF && fine_count <= 0x3FFFF) by {
        assert((header >> 18u64) & 0xFFFFu64 <= 0xFFFFu64) by (bit_vector);
        assert(header & 0x3FFFFu64 <= 0x3FFFFu64) by (bit_vector);
    }
    let map_at = read_be_u32(buf, 12) as u64 + 2;
    if map_at + 4 > len {
        return Err(ParseError::Truncated);
    }
    let coarse_at = map_at + 4;
    let fine_at = map_at + read_be_u32(buf, map_at as usize) as u64;
    if coarse_at + 8 * coarse_count > len || fine_at + 4 * fine_count > len {
        return Err(ParseError::Truncated);
    }
    let ghost b = buf@;
    assert(tables_fit(b));
    assert(b.len() <= usize::MAX);

    let mut i: u64 = 0;
    while i < coarse_count
        invariant
            b == buf@,
            len == b.len(),
            b.len() <= usize::MAX,
            tables_fit(b),
            b[3] != 0,
            coarse_count == spec_coarse_count(b),
            fine_count == spec_fine_count(b),
            coarse_at == coarse_pos(b),
            i <= coarse_count,
            forall|k: int| 0 <= k < i ==> #[trigger] coarse_fine_start(b, k) <= fine_count,
        decreases coarse_count - i,
    {
        assert(coarse_at + 8 * i + 8 <= len);
        let w = read_be_u64(buf, (coarse_at + 8 * i) as usize);
        assert(w == coarse_word(b, i as int));
        if w >> 46u64 > fine_count {
            assert(coarse_fine_start(b, i as int) > spec_fine_count(b));
            assert(!fine_starts_in_range(b));
            return Err(ParseError::FineIndexOutOfRange);
        }
        i = i + 1;
    }
    assert(fine_starts_in_range(b));

    let mut combined: Vec<Combined> = Vec::new();
    let mut i: u64 = 0;
    while i < coarse_count
        invariant
            b == buf@,
            len == b.len(),
            b.len() <= usize::MAX,
            tables_fit(b),
            fine_starts_in_range(b),
            b[3] != 0,
            stream_pid == spec_stream_pid(b),
            coarse_count == spec_coarse_count(b),
            fine_count == spec_fine_count(b),
            coarse_at == coarse_pos(b),
            fine_at == fine_pos(b),
            i <= coarse_count,
            combined@ == merged(b, i as int),
        decreases coarse_count - i,
    {
        assert(coarse_at + 8 * i + 8 <= len);
        let cw = read_be_u64(buf, (coarse_at + 8 * i) as usize);
        let start = cw >> 46u64;
        let end = if i + 1 < coarse_count {
            assert(coarse_at + 8 * (i + 1) + 8 <= len);
            read_be_u64(buf, (coarse_at + 8 * (i + 1)) as usize) >> 46u64
        } else {
            fine_count
        };
        assert(cw == coarse_word(b, i as int));
        assert(start == coarse_fine_start(b, i as int));
        assert(end == group_end(b, i as int));
        assert(end <= fine_count) by {
            if i + 1 < coarse_count {
                assert(coarse_fine_start(b, i + 1) <= spec_fine_count(b));
            }
        }
        let window = ((cw & 0xFFFF_FFFFu64) as u32) & !0x1FFFFu32;
        let pts_base = (((cw >> 32u64) & 0x3FFFu64) & !1u64) << 18u64;
        let ghost done = combined@;
        assert(done + group(b, i as int).take(0) =~= done);
        let mut j: u64 = start;
        while j < end
            invariant
                b == buf@,
                len == b.len(),
            b.len() <= usize::MAX,
                tables_fit(b),
                fine_count == spec_fine_count(b),
                fine_at == fine_pos(b),
                start <= j,
                j <= end || j == start,
                start == group_start(b, i as int),
                end == group_end(b, i as int),
                end <= fine_count,
                window == coarse_window(b, i as int),
                pts_base == (((coarse_pts(b, i as int) & !1u64) << 18u64)),
                combined@ == done + group(b, i as int).take(j - start),
            decreases end - j,
        {
            assert(fine_at + 4 * j + 4 <= len);
            let fw = read_be_u32(buf, (fine_at + 4 * j) as usize);
            assert(fw == fine_word(b, j as int));
            proof {
                lemma_entry_fits(coarse_spn(b, i as int), fw, coarse_word(b, i as int) >> 32u64, fw);
            }
            let e = Combined {
                pts: pts_base + ((((fw >> 17u32) & 0x7FFu32) as u64) << 8u64),
                spn: window + (fw & 0x1FFFFu32),
            };
            combined.push(e);
            proof {
                assert(e == entry_at(b, i as int, j as int));
                assert(combined@ =~= done + group(b, i as int).take(j + 1 - start));
            }
            j = j + 1;
        }
        proof {
            assert(combined@ =~= merged(b, i + 1)) by {
                if start < end {
                    assert(group(b, i as int).take(end - start) =~= group(b, i as int));
                } else {
                    assert(group(b, i as int) =~= Seq::empty());
                }
            }
        }
        i = i + 1;
    }
    Ok(CLPIResult { stream_pid, combined })
}

/// Offset of the CPI block, read from the file header.
pub open spec fn cpi_pos(f: Seq<u8>) -> int {
    be_u32(f, 16) as int
}

/// Length of the CPI payload, read from its prefix.
pub open spec fn cpi_len(f: Seq<u8>) -> int {
    be_u32(f, cpi_pos(f)) as int
}

/// What parsing a whole clip information file `f` yields.
pub open spec fn parse_clpi_spec(f: Seq<u8>) -> Result<(u16, Seq<Combined>), ParseError> {
    if f.len() < 20 || cpi_pos(f) + 4 > f.len() || cpi_pos(f) + 4 + cpi_len(f) > f.len() {
        Err(ParseError::Truncated)
    } else {
        parse_cpi_spec(f.subrange(cpi_pos(f) + 4, cpi_pos(f) + 4 + cpi_len(f)))
    }
}

/// Parses a whole clip information file: the header gives the position of
/// the CPI block, whose payload follows a 4-byte length prefix.
pub fn parse_clpi(file: &[u8]) -> (r: Result<CLPIResult, ParseError>)
    ensures
        result_matches(r, parse_clpi_spec(file@)),
{
    let len = file.len() as u64;
    if len < 20 {
        return Err(ParseError::Truncated);
    }
    let at = read_be_u32(file, 16) as u64;
    if at + 4 > len {
        return Err(ParseError::Truncated);
    }
    let cpi_length = read_be_u32(file, at as usize) as u64;
    if at + 4 + cpi_length > len {
        return Err(ParseError::Truncated);
    }
    let lo = (at + 4) as usize;
    let hi = (at + 4 + cpi_length) as usize;
    let mut cpi: Vec<u8> = Vec::with_capacity(hi - lo);
    let mut k: usize = lo;
    while k < hi
        invariant
            lo <= k <= hi,
            hi <= file@.len(),
            cpi@ == file@.subrange(lo as int, k as int),
        decreases hi - k,
    {
        cpi.push(file[k]);
        assert(cpi@ =~= file@.subrange(lo as int, k + 1));
        k = k + 1;
    }
    parse_cpi(cpi.as_slice())
}

/// Entry points whose byte offsets never decrease along the list.
pub open spec fn offsets_ascend(s: Seq<Combined>) -> bool {
    forall|a: int, c: int| 0 <= a <= c < s.len() ==> s[a].spn <= s[c].spn
}

/// A map laid out as the two-level encoding intends: each coarse entry opens
/// a higher 2^17-packet window than the one before it, and within the range
/// of each coarse entry the fine byte-offset deltas never decrease.
pub open spec fn well_formed_map(b: Seq<u8>) -> bool {
    &&& forall|i: int|
        0 <= i && i + 1 < spec_coarse_count(b) ==> #[trigger] coarse_window(b, i)
            < coarse_window(b, i + 1)
    &&& forall|i: int, j: int, k: int|
        #![trigger group_start(b, i), fine_spn(b, j), fine_spn(b, k)]
        0 <= i < spec_coarse_count(b) && group_start(b, i) <= j <= k < group_end(b, i)
            ==> fine_spn(b, j) <= fine_spn(b, k)
}

proof fn lemma_window_step(x: u32, y: u32)
    requires
        (x & !0x1FFFFu32) < (y & !0x1FFFFu32),
    ensures
        (x & !0x1FFFFu32) as int + 0x20000 <= (y & !0x1FFFFu32) as int,
{
    assert((x & !0x1FFFFu32) < (y & !0x1FFFFu32) ==> (x & !0x1FFFFu32) <= (y & !0x1FFFFu32)
        - 0x20000u32) by (bit_vector);
}

proof fn lemma_group_window(b: Seq<u8>, i: int)
    ensures
        forall|k: int|
            0 <= k < group(b, i).len() ==> coarse_window(b, i) <= #[trigger] group(b, i)[k].spn
                < coarse_window(b, i) + 0x20000,
{
    assert forall|k: int| 0 <= k < group(b, i).len() implies coarse_window(b, i)
        <= #[trigger] group(b, i)[k].spn < coarse_window(b, i) + 0x20000 by {
        let j = group_start(b, i) + k;
        let fw = fine_word(b, j);
        lemma_entry_fits(coarse_spn(b, i), fw, coarse_word(b, i) >> 32u64, fw);
        assert((fw & 0x1FFFFu32) < 0x20000u32) by (bit_vector);
    }
}

proof fn lemma_merged_ascend(b: Seq<u8>, n: int)
    requires
        well_formed_map(b),
        1 <= n <= spec_coarse_count(b),
    ensures
        offsets_ascend(merged(b, n)),
        forall|k: int|
            0 <= k < merged(b, n).len() ==> #[trigger] merged(b, n)[k].spn < coarse_window(
                b,
                n - 1,
            ) + 0x20000,
    decreases n,
{
    let g = group(b, n - 1);
    lemma_group_window(b, n - 1);
    assert(offsets_ascend(g)) by {
        assert forall|a: int, c: int| 0 <= a <= c < g.len() implies g[a].spn <= g[c].spn by {
            let ja = group_start(b, n - 1) + a;
            let jc = group_start(b, n - 1) + c;
            assert(fine_spn(b, ja) <= fine_spn(b, jc));
            let fa = fine_word(b, ja);
            let fc = fine_word(b, jc);
            lemma_entry_fits(coarse_spn(b, n - 1), fa, 0, 0);
            lemma_entry_fits(coarse_spn(b, n - 1), fc, 0, 0);
        }
    }
    if n == 1 {
        assert(merged(b, 0) =~= Seq::<Combined>::empty());
        assert(merged(b, 1) =~= g);
    } else {
        lemma_merged_ascend(b, n - 1);
        let m = merged(b, n - 1);
        assert(coarse_window(b, n - 2) < coarse_window(b, n - 1));
        lemma_window_step(coarse_spn(b, n - 2), coarse_spn(b, n - 1));
        let s = merged(b, n);
        assert(s =~= m + g);
        assert forall|a: int, c: int| 0 <= a <= c < s.len() implies s[a].spn <= s[c].spn by {
            if c < m.len() {
                assert(s[a] == m[a] && s[c] == m[c]);
            } else if a >= m.len() {
                assert(s[a] == g[a - m.len()] && s[c] == g[c - m.len()]);
            } else {
                assert(s[a] == m[a] && s[c] == g[c - m.len()]);
            }
        }
        assert forall|k: int| 0 <= k < s.len() implies #[trigger] s[k].spn < coarse_window(
            b,
            n - 1,
        ) + 0x20000 by {
            if k < m.len() {
                assert(s[k] == m[k]);
            } else {
                assert(s[k] == g[k - m.len()]);
            }
        }
    }
}

/// For every map laid out as the two-level encoding intends, the byte
/// offsets of the parsed entry points never decrease.
pub proof fn lemma_parsed_offsets_ascend(b: Seq<u8>)
    requires
        parse_cpi_spec(b) is Ok,
        well_formed_map(b),
    ensures
        offsets_ascend(parse_cpi_spec(b)->Ok_0.1),
{
    let n = spec_coarse_count(b) as int;
    if n >= 1 {
        lemma_merged_ascend(b, n);
    } else {
        assert(merged(b, n) =~= Seq::<Combined>::empty());
    }
}

} // verus!
