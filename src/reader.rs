use vstd::prelude::*;
use crate::error::{Failure, RunError};

verus! {

/// The byte that separates a key from its reading.
pub const DELIMITER: u8 = 0x3B;

/// The byte that ends a record.
pub const LINE_END: u8 = 0x0A;

/// The byte of a decimal point; it contributes no digit. The format always
/// carries exactly one fractional digit, so the digits read are the value
/// times ten.
pub const DECIMAL_POINT: u8 = 0x2E;

pub const MINUS: u8 = 0x2D;

/// The first position at or after `pos` that holds a delimiter or a line end,
/// or the length of the buffer.
pub open spec fn key_end(buf: Seq<u8>, pos: int) -> int
    decreases buf.len() - pos,
{
    if pos < 0 || pos >= buf.len() {
        buf.len() as int
    } else if buf[pos] == DELIMITER || buf[pos] == LINE_END {
        pos
    } else {
        key_end(buf, pos + 1)
    }
}

/// The first position at or after `pos` that holds a line end, or the length
/// of the buffer.
pub open spec fn line_end(buf: Seq<u8>, pos: int) -> int
    decreases buf.len() - pos,
{
    if pos < 0 || pos >= buf.len() {
        buf.len() as int
    } else if buf[pos] == LINE_END {
        pos
    } else {
        line_end(buf, pos + 1)
    }
}

/// Where the next record starts, given where the current line ends.
pub open spec fn after_line(buf: Seq<u8>, end: int) -> int {
    if end < buf.len() { end + 1 } else { buf.len() as int }
}

/// Whether the line starting at `pos` has a delimiter before its end.
pub open spec fn has_delimiter(buf: Seq<u8>, pos: int) -> bool {
    key_end(buf, pos) < buf.len() && buf[key_end(buf, pos)] == DELIMITER
}

/// The value of the digits of a reading: each byte but the decimal point
/// folds into the accumulator by `acc * 10 + (byte & 15)`.
pub open spec fn digits_value(s: Seq<u8>) -> int
    decreases s.len(),
{
    if s.len() == 0 {
        0
    } else if s.last() == DECIMAL_POINT {
        digits_value(s.drop_last())
    } else {
        digits_value(s.drop_last()) * 10 + (s.last() % 16) as int
    }
}

pub open spec fn is_negative(s: Seq<u8>) -> bool {
    s.len() > 0 && s[0] == MINUS
}

/// The digits of a reading, without its sign.
pub open spec fn magnitude(s: Seq<u8>) -> int {
    if is_negative(s) { digits_value(s.drop_first()) } else { digits_value(s) }
}

/// The scaled integer that the text of a reading stands for.
pub open spec fn scaled_value(s: Seq<u8>) -> int {
    if is_negative(s) { -magnitude(s) } else { magnitude(s) }
}

pub proof fn lemma_key_end_bounds(buf: Seq<u8>, pos: int)
    requires
        0 <= pos <= buf.len(),
    ensures
        pos <= key_end(buf, pos) <= buf.len(),
    decreases buf.len() - pos,
{
    if pos < buf.len() {
        lemma_key_end_bounds(buf, pos + 1);
    }
}

pub proof fn lemma_line_end_bounds(buf: Seq<u8>, pos: int)
    requires
        0 <= pos <= buf.len(),
    ensures
        pos <= line_end(buf, pos) <= buf.len(),
    decreases buf.len() - pos,
{
    if pos < buf.len() {
        lemma_line_end_bounds(buf, pos + 1);
    }
}

pub proof fn lemma_digits_value_nonneg(s: Seq<u8>)
    ensures
        digits_value(s) >= 0,
    decreases s.len(),
{
    if s.len() > 0 {
        lemma_digits_value_nonneg(s.drop_last());
    }
}

/// A longer prefix never has a smaller digit value.
pub proof fn lemma_digits_value_monotone(s: Seq<u8>, i: int, j: int)
    requires
        0 <= i <= j <= s.len(),
    ensures
        digits_value(s.subrange(0, i)) <= digits_value(s.subrange(0, j)),
    decreases j - i,
{
    if i < j {
        lemma_digits_value_monotone(s, i, j - 1);
        let t = s.subrange(0, j);
        assert(t.drop_last() =~= s.subrange(0, j - 1));
        lemma_digits_value_nonneg(t.drop_last());
    }
}

/// A cursor over one chunk of the input. `base` is the chunk's offset in the
/// file, used to report where a failure occurred.
pub struct Reader {
    pub buf: Vec<u8>,
    pub pos: usize,
    pub base: u64,
}

impl Reader {
    pub open spec fn wf(&self) -> bool {
        &&& self.pos <= self.buf@.len()
        &&& self.base + self.buf@.len() <= u64::MAX
    }

    /// A reader positioned at the start of `buf`, which starts the file.
    pub fn new(buf: Vec<u8>) -> (r: Self)
        requires
            buf@.len() <= u64::MAX,
        ensures
            r.buf@ == buf@,
            r.pos == 0,
            r.base == 0,
            r.wf(),
    {
        Reader { buf, pos: 0, base: 0 }
    }

    /// A reader over a chunk that starts at `base` in the file.
    pub fn at_offset(buf: Vec<u8>, base: u64) -> (r: Self)
        requires
            base + buf@.len() <= u64::MAX,
        ensures
            r.buf@ == buf@,
            r.pos == 0,
            r.base == base,
            r.wf(),
    {
        Reader { buf, pos: 0, base }
    }

    pub fn has_remaining(&self) -> (r: bool)
        ensures
            r == (self.pos < self.buf@.len()),
    {
        self.pos < self.buf.len()
    }

    /// Scans to the end of the current line, from `from`.
    fn find_line_end(&self, from: usize) -> (r: usize)
        requires
            from <= self.buf@.len(),
        ensures
            r as int == line_end(self.buf@, from as int),
            from <= r <= self.buf@.len(),
    {
        let mut i: usize = from;
        while i < self.buf.len() && self.buf[i] != LINE_END
            invariant
                from <= i <= self.buf@.len(),
                line_end(self.buf@, i as int) == line_end(self.buf@, from as int),
            decreases self.buf@.len() - i,
        {
            i = i + 1;
        }
        i
    }

    /// Reads the key of the current record: returns the span of its bytes in
    /// the buffer and moves past the delimiter. A line without a delimiter is
    /// a malformed record; the reader then stays where it was.
    pub fn read_station_name(&mut self) -> (r: Result<(usize, usize), RunError>)
        requires
            old(self).wf(),
        ensures
            final(self).buf@ == old(self).buf@,
            final(self).base == old(self).base,
            final(self).wf(),
            has_delimiter(old(self).buf@, old(self).pos as int) ==> r == Ok::<(usize, usize), RunError>(
                (old(self).pos, key_end(old(self).buf@, old(self).pos as int) as usize),
            ) && final(self).pos == key_end(old(self).buf@, old(self).pos as int) + 1,
            !has_delimiter(old(self).buf@, old(self).pos as int) ==> r is Err && r->Err_0@ == (
            Failure::MalformedRecord {
                offset: old(self).base + old(self).pos,
                line: old(self).buf@.subrange(
                    old(self).pos as int,
                    line_end(old(self).buf@, old(self).pos as int),
                ),
            }) && final(self).pos == old(self).pos,
    {
        let start = self.pos;
        let mut last: usize = start;
        while last < self.buf.len() && self.buf[last] != DELIMITER && self.buf[last] != LINE_END
            invariant
                start <= last <= self.buf@.len(),
                key_end(self.buf@, last as int) == key_end(self.buf@, start as int),
            decreases self.buf@.len() - last,
        {
            last = last + 1;
        }
        if last < self.buf.len() && self.buf[last] == DELIMITER {
            self.pos = last + 1;
            Ok((start, last))
        } else {
            let end = self.find_line_end(start);
            let line = vstd::slice::slice_to_vec(vstd::slice::slice_subrange(self.buf.as_slice(), start, end));
            Err(RunError::MalformedRecord { offset: self.base + start as u64, line })
        }
    }

    /// Reads the reading that ends the current line and moves to the next
    /// line. A reading whose digits do not fit a 64-bit integer is an overflow;
    /// the reader then stays where it was.
    pub fn read_temp(&mut self) -> (r: Result<i64, RunError>)
        requires
            old(self).wf(),
        ensures
            final(self).buf@ == old(self).buf@,
            final(self).base == old(self).base,
            final(self).wf(),
            ({
                let s = old(self).buf@.subrange(
                    old(self).pos as int,
                    line_end(old(self).buf@, old(self).pos as int),
                );
                &&& magnitude(s) <= i64::MAX ==> r == Ok::<i64, RunError>(scaled_value(s) as i64)
                    && final(self).pos == after_line(
                    old(self).buf@,
                    line_end(old(self).buf@, old(self).pos as int),
                )
                &&& magnitude(s) > i64::MAX ==> r == Err::<i64, RunError>(
                    RunError::NumericOverflow { offset: (old(self).base + old(self).pos) as u64 },
                ) && final(self).pos == old(self).pos
            }),
    {
        let start = self.pos;
        let end = self.find_line_end(start);
        let ghost s = self.buf@.subrange(start as int, end as int);
        let neg = start < end && self.buf[start] == MINUS;
        let first: usize = if neg { start + 1 } else { start };
        let ghost digits = self.buf@.subrange(first as int, end as int);
        proof {
            assert(is_negative(s) == neg);
            if neg {
                assert(s.drop_first() =~= digits);
            } else {
                assert(s =~= digits);
            }
            assert(magnitude(s) == digits_value(digits));
        }
        let mut acc: i128 = 0;
        let mut i: usize = first;
        while i < end
            invariant
                first <= i <= end <= self.buf@.len(),
                self.wf(),
                self.pos == start,
                self.buf@ == old(self).buf@,
                self.base == old(self).base,
                start <= first,
                magnitude(s) == digits_value(digits),
                is_negative(s) == neg,
                s == self.buf@.subrange(start as int, end as int),
                end as int == line_end(self.buf@, start as int),
                digits == self.buf@.subrange(first as int, end as int),
                0 <= acc <= i64::MAX,
                acc == digits_value(digits.subrange(0, i - first)),
            decreases end - i,
        {
            let b = self.buf[i];
            proof {
                let t = digits.subrange(0, i + 1 - first);
                assert(t.drop_last() =~= digits.subrange(0, i - first));
                assert(t.last() == b);
                assert(b & 15u8 == b % 16) by (bit_vector);
            }
            if b != DECIMAL_POINT {
                acc = acc * 10 + (b & 15) as i128;
                if acc > i64::MAX as i128 {
                    proof {
                        assert(acc == digits_value(digits.subrange(0, i + 1 - first)));
                        lemma_digits_value_monotone(digits, i + 1 - first, digits.len() as int);
                        assert(digits.subrange(0, digits.len() as int) =~= digits);
                        assert(digits_value(digits) > i64::MAX);
                        assert(magnitude(s) > i64::MAX);
                    }
                    return Err(RunError::NumericOverflow { offset: self.base + start as u64 });
                }
            }
            i = i + 1;
        }
        proof {
            assert(digits.subrange(0, digits.len() as int) =~= digits);
        }
        self.pos = if end < self.buf.len() { end + 1 } else { end };
        let v: i64 = acc as i64;
        if neg { Ok(-v) } else { Ok(v) }
    }
}

} // verus!
