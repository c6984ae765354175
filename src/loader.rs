use vstd::prelude::*;

verus! {

/// Why a dataset file could not be loaded.
#[derive(Debug, Clone, Copy, PartialEq, Eq, Structural)]
pub enum LoadError {
    /// The vector file is not a whole number of records of one dimensionality.
    MalformedVectorFile,
    /// Line `n` (counting from 1) of the attribute file is not an `i32`.
    MalformedAttributeFile(usize),
}

/// The little-endian `u32` at byte `off`.
pub open spec fn u32_le(b: Seq<u8>, off: int) -> int {
    b[off] + 256 * b[off + 1] + 65536 * b[off + 2] + 16777216 * b[off + 3]
}

/// Bytes per record: the `u32` dimensionality and `d` four-byte coordinates.
pub open spec fn record_len(d: int) -> int {
    4 * (d + 1)
}

/// The dimensionality read from the first record.
pub open spec fn header_dim(b: Seq<u8>) -> int {
    u32_le(b, 0)
}

pub open spec fn record_count(b: Seq<u8>) -> int {
    b.len() as int / record_len(header_dim(b))
}

/// A vector file: at least one record header, a length that is a whole
/// number of records, and every record header equal to the first.
pub open spec fn vector_file_ok(b: Seq<u8>) -> bool {
    &&& b.len() >= 4
    &&& b.len() as int % record_len(header_dim(b)) == 0
    &&& forall|r: int| 0 <= r < record_count(b) ==> #[trigger] u32_le(b, r * record_len(header_dim(b))) == header_dim(b)
}

/// The coordinate words of the first `r` records, in file order.
pub open spec fn payload(b: Seq<u8>, d: int, r: int) -> Seq<u32>
    decreases r,
{
    if r <= 0 {
        Seq::empty()
    } else {
        payload(b, d, r - 1) + Seq::new(d as nat, |j: int| u32_le(b, (r - 1) * record_len(d) + 4 + 4 * j) as u32)
    }
}

/// The records of a vector file with the headers dropped: the dimensionality,
/// and the raw little-endian words of all coordinates, back to back.
pub struct VectorRecords {
    pub dimensionality: usize,
    pub count: usize,
    pub words: Vec<u32>,
}

/// Reads the little-endian `u32` at byte `off`.
pub fn read_u32_le(b: &[u8], off: usize) -> (r: u32)
    requires
        off + 4 <= b@.len(),
    ensures
        r as int == u32_le(b@, off as int),
{
    (b[off] as u32) + 256 * (b[off + 1] as u32) + 65536 * (b[off + 2] as u32) + 16777216 * (b[off + 3] as u32)
}

/// Splits a vector file into records; `MalformedVectorFile` exactly when the
/// bytes are not a well-formed file.
pub fn parse_vector_file(b: &[u8]) -> (r: Result<VectorRecords, LoadError>)
    ensures
        r is Err <==> !vector_file_ok(b@),
        r matches Err(e) ==> e == LoadError::MalformedVectorFile,
        r matches Ok(v) ==> {
            &&& v.dimensionality == header_dim(b@)
            &&& v.count == record_count(b@)
            &&& v.words@ == payload(b@, header_dim(b@), record_count(b@))
            &&& v.words@.len() == v.count * v.dimensionality
        },
{
    let len = b.len();
    if len < 4 {
        return Err(LoadError::MalformedVectorFile);
    }
    let d = read_u32_le(b, 0) as usize;
    let rl64: u64 = 4 * (d as u64 + 1);
    if rl64 > len as u64 {
        assert(len as int % record_len(d as int) == len as int) by (nonlinear_arith)
            requires
                0 <= len < record_len(d as int),
        ;
        return Err(LoadError::MalformedVectorFile);
    }
    let rl = rl64 as usize;
    if len % rl != 0 {
        return Err(LoadError::MalformedVectorFile);
    }
    let count = len / rl;
    proof {
        vstd::arithmetic::div_mod::lemma_fundamental_div_mod(len as int, rl as int);
        assert(len == rl * count);
    }
    let mut words: Vec<u32> = Vec::new();
    let mut rec: usize = 0;
    let mut off: usize = 0;
    while rec < count
        invariant
            len == b@.len(),
            d as int == header_dim(b@),
            rl as int == record_len(d as int),
            count as int == record_count(b@),
            len == rl * count,
            rec <= count,
            off == rec * rl,
            forall|r: int| 0 <= r < rec ==> #[trigger] u32_le(b@, r * record_len(header_dim(b@))) == header_dim(b@),
            words@ == payload(b@, d as int, rec as int),
            words@.len() == rec * d,
        decreases count - rec,
    {
        assert(off + rl <= len) by (nonlinear_arith)
            requires
                off == rec * rl,
                rec < count,
                len == rl * count,
        ;
        if read_u32_le(b, off) as usize != d {
            proof {
                assert(off as int == rec as int * record_len(header_dim(b@)));
            }
            return Err(LoadError::MalformedVectorFile);
        }
        let ghost before = words@;
        let mut j: usize = 0;
        while j < d
            invariant
                len == b@.len(),
                off + rl <= len,
                rl == 4 * (d + 1),
                j <= d,
                off as int == rec as int * record_len(d as int),
                words@ == before + Seq::new(j as nat, |t: int| u32_le(b@, rec as int * record_len(d as int) + 4 + 4 * t) as u32),
                before.len() == rec * d,
            decreases d - j,
        {
            let w = read_u32_le(b, off + 4 + 4 * j);
            words.push(w);
            assert(Seq::new((j + 1) as nat, |t: int| u32_le(b@, rec as int * record_len(d as int) + 4 + 4 * t) as u32)
                =~= Seq::new(j as nat, |t: int| u32_le(b@, rec as int * record_len(d as int) + 4 + 4 * t) as u32).push(w));
            j = j + 1;
        }
        proof {
            assert(off as int == rec as int * record_len(header_dim(b@)));
            assert forall|r: int| 0 <= r < rec + 1 implies #[trigger] u32_le(b@, r * record_len(header_dim(b@))) == header_dim(b@) by {
                if r == rec {
                }
            }
        }
        assert(words@.len() == (rec + 1) * d) by (nonlinear_arith)
            requires
                words@.len() == rec * d + d,
        ;
        rec = rec + 1;
        off = off + rl;
        assert(off == rec * rl) by (nonlinear_arith)
            requires
                off == (rec - 1) * rl + rl,
        ;
    }
    Ok(VectorRecords { dimensionality: d, count, words })
}

pub open spec fn is_digit(c: u8) -> bool {
    48 <= c <= 57
}

/// The value of a string of decimal digits.
pub open spec fn digits_value(s: Seq<u8>) -> int
    decreases s.len(),
{
    if s.len() == 0 {
        0
    } else {
        10 * digits_value(s.drop_last()) + (s.last() - 48)
    }
}

pub open spec fn all_digits(s: Seq<u8>) -> bool {
    s.len() > 0 && forall|i: int| 0 <= i < s.len() ==> is_digit(#[trigger] s[i])
}

/// The integer a line spells: an optional `+` or `-`, then one or more digits.
pub open spec fn signed_value(s: Seq<u8>) -> Option<int> {
    if s.len() > 0 && s[0] == 45 {
        if all_digits(s.drop_first()) {
            Some(-digits_value(s.drop_first()))
        } else {
            None
        }
    } else if s.len() > 0 && s[0] == 43 {
        if all_digits(s.drop_first()) {
            Some(digits_value(s.drop_first()))
        } else {
            None
        }
    } else if all_digits(s) {
        Some(digits_value(s))
    } else {
        None
    }
}

/// A line without one trailing carriage return.
pub open spec fn strip_cr(s: Seq<u8>) -> Seq<u8> {
    if s.len() > 0 && s.last() == 13 {
        s.drop_last()
    } else {
        s
    }
}

/// The attribute a line holds, when it spells an `i32`.
pub open spec fn attribute_of(line: Seq<u8>) -> Option<i32> {
    match signed_value(strip_cr(line)) {
        Some(v) => if i32::MIN <= v <= i32::MAX {
            Some(v as i32)
        } else {
            None
        },
        None => None,
    }
}

/// Lines finished so far, and the line being read, after the bytes `b`.
pub open spec fn split_lines(b: Seq<u8>) -> (Seq<Seq<u8>>, Seq<u8>)
    decreases b.len(),
{
    if b.len() == 0 {
        (Seq::empty(), Seq::empty())
    } else {
        let (done, cur) = split_lines(b.drop_last());
        if b.last() == 10 {
            (done.push(cur), Seq::empty())
        } else {
            (done, cur.push(b.last()))
        }
    }
}

/// The lines of a text: split at `\n`; a final `\n` ends the last line.
pub open spec fn lines_of(b: Seq<u8>) -> Seq<Seq<u8>> {
    let (done, cur) = split_lines(b);
    if cur.len() == 0 {
        done
    } else {
        done.push(cur)
    }
}

proof fn lemma_digits_monotone(s: Seq<u8>, k: int)
    requires
        0 <= k <= s.len(),
        forall|i: int| 0 <= i < s.len() ==> is_digit(#[trigger] s[i]),
    ensures
        digits_value(s) >= digits_value(s.take(k)),
        digits_value(s) >= 0,
    decreases s.len(),
{
    if s.len() > 0 {
        if k == s.len() {
            assert(s.take(k) == s);
            lemma_digits_monotone(s.drop_last(), 0);
        } else {
            lemma_digits_monotone(s.drop_last(), k);
            assert(s.drop_last().take(k) == s.take(k));
        }
    }
}

/// The `i32` a digit string spells, from byte `start` on; `None` when it is
/// empty, holds another byte, or exceeds 2^31 (`neg` allows exactly 2^31).
fn parse_digits(s: &[u8], start: usize, end: usize, neg: bool) -> (r: Option<i32>)
    requires
        start <= end <= s@.len(),
    ensures
        ({
            let t = s@.subrange(start as int, end as int);
            let v = if neg { -digits_value(t) } else { digits_value(t) };
            r == if all_digits(t) && i32::MIN <= v <= i32::MAX {
                Some(v as i32)
            } else {
                None::<i32>
            }
        }),
{
    let ghost t = s@.subrange(start as int, end as int);
    if start == end {
        return None;
    }
    let mut acc: i64 = 0;
    let mut i: usize = start;
    while i < end
        invariant
            start < end <= s@.len(),
            t == s@.subrange(start as int, end as int),
            start <= i <= end,
            forall|j: int| 0 <= j < i - start ==> is_digit(#[trigger] t[j]),
            acc as int == digits_value(t.take(i - start)),
            0 <= acc <= 0x8000_0000,
        decreases end - i,
    {
        let c = s[i];
        if c < 48 || c > 57 {
            assert(!is_digit(t[i - start]));
            return None;
        }
        assert(t.take(i - start + 1).drop_last() == t.take(i - start));
        let next = acc * 10 + (c - 48) as i64;
        if next > 0x8000_0000 {
            proof {
                assert forall|j: int| 0 <= j < i - start + 1 implies is_digit(#[trigger] t.take(i - start + 1)[j]) by {}
                if all_digits(t) {
                    lemma_digits_monotone(t, i - start + 1);
                }
            }
            return None;
        }
        acc = next;
        i = i + 1;
    }
    assert(t.take(end - start) == t);
    if neg {
        Some((-acc) as i32)
    } else if acc > 0x7FFF_FFFF {
        None
    } else {
        Some(acc as i32)
    }
}

/// Parses one attribute line (see `attribute_of`).
pub fn parse_attribute_line(line: &[u8]) -> (r: Option<i32>)
    ensures
        r == attribute_of(line@),
{
    let mut end = line.len();
    if end > 0 && line[end - 1] == 13 {
        end = end - 1;
    }
    let ghost s = strip_cr(line@);
    assert(s == line@.subrange(0, end as int));
    if end > 0 && (line[0] == 45 || line[0] == 43) {
        assert(s.drop_first() == line@.subrange(1, end as int));
        parse_digits(line, 1, end, line[0] == 45)
    } else {
        parse_digits(line, 0, end, false)
    }
}

/// Finished lines only grow as more bytes are read.
proof fn lemma_done_prefix(b: Seq<u8>, k1: int, k2: int)
    requires
        0 <= k1 <= k2 <= b.len(),
    ensures
        split_lines(b.take(k1)).0.len() <= split_lines(b.take(k2)).0.len(),
        forall|j: int| 0 <= j < split_lines(b.take(k1)).0.len() ==> split_lines(b.take(k2)).0[j] == #[trigger] split_lines(
            b.take(k1),
        ).0[j],
    decreases k2 - k1,
{
    if k1 < k2 {
        lemma_done_prefix(b, k1, k2 - 1);
        assert(b.take(k2).drop_last() == b.take(k2 - 1));
    }
}

/// The finished lines after some bytes start the lines of the whole text.
proof fn lemma_lines_extend(b: Seq<u8>, k: int)
    requires
        0 <= k <= b.len(),
    ensures
        split_lines(b.take(k)).0.len() <= lines_of(b).len(),
        forall|j: int| 0 <= j < split_lines(b.take(k)).0.len() ==> lines_of(b)[j] == #[trigger] split_lines(b.take(k)).0[j],
{
    lemma_done_prefix(b, k, b.len() as int);
    assert(b.take(b.len() as int) == b);
}

/// Parses an attribute file, one `i32` per line. Fails with
/// `MalformedAttributeFile(n)` for the first line `n` (from 1) that is not one.
pub fn parse_attributes(text: &[u8]) -> (r: Result<Vec<i32>, LoadError>)
    ensures
        r matches Ok(v) ==> v@.len() == lines_of(text@).len() && forall|i: int| 0 <= i < v@.len() ==> attribute_of(
            #[trigger] lines_of(text@)[i],
        ) == Some(v@[i]),
        r matches Err(e) ==> exists|n: usize| e == LoadError::MalformedAttributeFile(n) && 1 <= n <= lines_of(text@).len()
            && attribute_of(lines_of(text@)[n - 1]) is None && forall|i: int| 0 <= i < n - 1 ==> (#[trigger] attribute_of(
            lines_of(text@)[i])) is Some,
{
    let mut values: Vec<i32> = Vec::new();
    let mut cur: Vec<u8> = Vec::new();
    let mut i: usize = 0;
    while i < text.len()
        invariant
            i <= text@.len(),
            split_lines(text@.take(i as int)).0.len() == values@.len(),
            split_lines(text@.take(i as int)).1 == cur@,
            values@.len() + cur@.len() <= i,
            forall|j: int| 0 <= j < values@.len() ==> attribute_of(#[trigger] split_lines(text@.take(i as int)).0[j]) == Some(
                values@[j],
            ),
        decreases text@.len() - i,
    {
        let c = text[i];
        let ghost before = split_lines(text@.take(i as int));
        assert(text@.take(i + 1).drop_last() == text@.take(i as int));
        if c == 10 {
            let parsed = parse_attribute_line(cur.as_slice());
            match parsed {
                Some(v) => {
                    values.push(v);
                    cur = Vec::new();
                },
                None => {
                    let n = values.len() + 1;
                    proof {
                        let after = split_lines(text@.take(i + 1)).0;
                        assert(after == before.0.push(cur@));
                        lemma_lines_extend(text@, i + 1);
                        assert(lines_of(text@)[n - 1] == after[n - 1]);
                        assert forall|j: int| 0 <= j < n - 1 implies (#[trigger] attribute_of(lines_of(text@)[j])) is Some by {
                            assert(lines_of(text@)[j] == after[j]);
                        }
                    }
                    return Err(LoadError::MalformedAttributeFile(n));
                },
            }
        } else {
            cur.push(c);
        }
        i = i + 1;
    }
    assert(text@.take(text@.len() as int) == text@);
    if cur.len() > 0 {
        let parsed = parse_attribute_line(cur.as_slice());
        match parsed {
            Some(v) => {
                values.push(v);
            },
            None => {
                let n = values.len() + 1;
                return Err(LoadError::MalformedAttributeFile(n));
            },
        }
    }
    Ok(values)
}

/// Parses the attribute file of a dataset of `count` vectors: one line per
/// vector. A missing or extra line is reported as the first line past the
/// shorter of the two counts.
pub fn parse_attributes_for(text: &[u8], count: usize) -> (r: Result<Vec<i32>, LoadError>)
    ensures
        r matches Ok(v) ==> v@.len() == count && v@.len() == lines_of(text@).len() && forall|i: int|
            0 <= i < v@.len() ==> attribute_of(#[trigger] lines_of(text@)[i]) == Some(v@[i]),
        (forall|i: int| 0 <= i < lines_of(text@).len() ==> (#[trigger] attribute_of(lines_of(text@)[i])) is Some)
            ==> (r is Ok <==> lines_of(text@).len() == count),
        (forall|i: int| 0 <= i < lines_of(text@).len() ==> (#[trigger] attribute_of(lines_of(text@)[i])) is Some)
            && lines_of(text@).len() != count ==> r == Err::<Vec<i32>, LoadError>(LoadError::MalformedAttributeFile(
            if lines_of(text@).len() < count {
                (lines_of(text@).len() + 1) as usize
            } else {
                (count + 1) as usize
            },
        )),
        !(forall|i: int| 0 <= i < lines_of(text@).len() ==> (#[trigger] attribute_of(lines_of(text@)[i])) is Some)
            ==> exists|n: usize| r == Err::<Vec<i32>, LoadError>(LoadError::MalformedAttributeFile(n)) && 1 <= n <= lines_of(
            text@,
        ).len() && attribute_of(lines_of(text@)[n - 1]) is None && forall|i: int| 0 <= i < n - 1 ==> (#[trigger] attribute_of(
            lines_of(text@)[i])) is Some,
        r matches Err(e) ==> exists|n: usize| e == LoadError::MalformedAttributeFile(n) && n >= 1,
{
    let v = match parse_attributes(text) {
        Ok(v) => v,
        Err(e) => {
            return Err(e);
        },
    };
    if v.len() < count {
        return Err(LoadError::MalformedAttributeFile(v.len() + 1));
    }
    if v.len() > count {
        return Err(LoadError::MalformedAttributeFile(count + 1));
    }
    Ok(v)
}

} // verus!
