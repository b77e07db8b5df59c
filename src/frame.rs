//! One framed line per fragment: `QRST/<version>;p=<hex byte>;t=<text>`.
use vstd::prelude::*;
use crate::error::Error;

verus! {

/// Highest protocol version this library reads, and the one it writes.
pub const VERSION: u8 = 1;

/// Largest number of parts a message can be split into (the 4-bit count field).
pub const MAX_PARTS: usize = 16;

/// The four bytes every framed line starts with: `QRST`.
pub open spec fn magic() -> Seq<u8> {
    seq![81u8, 82u8, 83u8, 84u8]
}

pub open spec fn has_magic(line: Seq<u8>) -> bool {
    line.len() >= 4 && line.subrange(0, 4) == magic()
}

/// Lower-case hexadecimal digit of `d < 16`.
pub open spec fn hex_digit(d: nat) -> u8 {
    if d < 10 { (48 + d) as u8 } else { (87 + d) as u8 }
}

/// The packed part byte: high nibble `index + 1`, low nibble `count`, with 16 written as 0.
pub open spec fn part_byte(index: nat, count: nat) -> nat {
    ((index + 1) % 16) * 16 + count % 16
}

/// The framed line for part `index` of `count` carrying `text`.
pub open spec fn frame_spec(text: Seq<u8>, index: nat, count: nat) -> Seq<u8> {
    let b = part_byte(index, count);
    magic() + seq![47u8, 49u8, 59u8, 112u8, 61u8, hex_digit(b / 16), hex_digit(b % 16), 59u8, 116u8, 61u8]
        + text
}

/// A parsed fragment, in mathematical form.
pub struct FragmentView {
    pub index: nat,
    pub count: nat,
    pub text: Seq<u8>,
}

/// One fragment of a split message.
pub struct Fragment {
    pub index: usize,
    pub count: usize,
    pub text: Vec<u8>,
}

impl View for Fragment {
    type V = FragmentView;

    open spec fn view(&self) -> FragmentView {
        FragmentView { index: self.index as nat, count: self.count as nat, text: self.text@ }
    }
}

/// Writes the framed line for part `index` of `count`.
pub fn frame_line(text: &[u8], index: usize, count: usize) -> (r: Vec<u8>)
    requires
        index < count <= MAX_PARTS,
    ensures
        r@ == frame_spec(text@, index as nat, count as nat),
{
    let b: usize = ((index + 1) % 16) * 16 + count % 16;
    let mut r: Vec<u8> = vec![81u8, 82u8, 83u8, 84u8, 47u8, 49u8, 59u8, 112u8, 61u8];
    r.push(hex_digit_exec(b / 16));
    r.push(hex_digit_exec(b % 16));
    r.push(59u8);
    r.push(116u8);
    r.push(61u8);
    let mut i: usize = 0;
    while i < text.len()
        invariant
            i <= text@.len(),
            r@ == frame_spec(text@, index as nat, count as nat).subrange(0, 14 + i),
        decreases text@.len() - i,
    {
        r.push(text[i]);
        i += 1;
        assert(r@ =~= frame_spec(text@, index as nat, count as nat).subrange(0, 14 + i));
    }
    assert(r@ =~= frame_spec(text@, index as nat, count as nat));
    r
}

fn hex_digit_exec(d: usize) -> (r: u8)
    requires
        d < 16,
    ensures
        r == hex_digit(d as nat),
{
    if d < 10 { (48 + d) as u8 } else { (87 + d) as u8 }
}

// ---------------------------------------------------------------------------
// Parsing

/// Value of a hexadecimal digit byte (either case), if it is one.
pub open spec fn hex_value(c: u8) -> Option<nat> {
    if 48 <= c <= 57 {
        Some((c - 48) as nat)
    } else if 97 <= c <= 102 {
        Some((c - 87) as nat)
    } else if 65 <= c <= 70 {
        Some((c - 55) as nat)
    } else {
        None
    }
}

/// Value of a decimal digit byte, if it is one.
pub open spec fn dec_value(c: u8) -> Option<nat> {
    if 48 <= c <= 57 { Some((c - 48) as nat) } else { None }
}

/// Digit value in `radix` (10 or 16).
pub open spec fn digit_value(c: u8, radix: nat) -> Option<nat> {
    if radix == 16 { hex_value(c) } else { dec_value(c) }
}

/// Value of a string of digits, saturating at 256 (anything above a byte).
pub open spec fn digits_value(s: Seq<u8>, radix: nat) -> Option<nat>
    decreases s.len(),
{
    if s.len() == 0 {
        Some(0)
    } else {
        match (digits_value(s.drop_last(), radix), digit_value(s.last(), radix)) {
            (Some(v), Some(d)) => if v * radix + d > 255 { Some(256) } else { Some(v * radix + d) },
            _ => None,
        }
    }
}

/// A byte written in `radix`: at least one digit, no sign, a value below 256.
pub open spec fn parse_byte_spec(s: Seq<u8>, radix: nat) -> Option<nat> {
    if s.len() == 0 {
        None
    } else {
        match digits_value(s, radix) {
            Some(v) => if v <= 255 { Some(v) } else { None },
            None => None,
        }
    }
}

/// Position of the first `;` at or after `from`, or the end of the line.
pub open spec fn next_semi(line: Seq<u8>, from: int) -> int
    decreases line.len() - from,
{
    if from >= line.len() {
        line.len() as int
    } else if line[from] == 59u8 {
        from
    } else {
        next_semi(line, from + 1)
    }
}

/// What the fields of one line have said so far.
pub struct LineFields {
    /// Index and count from the last `p=` field.
    pub part: Option<(nat, nat)>,
    /// Text of the last `t=` field.
    pub text: Option<Seq<u8>>,
    /// A `p=` field was malformed, or two `p=` fields disagree on the count.
    pub fault: bool,
}

pub open spec fn index_of_nibble(hi: nat) -> nat {
    if hi == 0 { 15 } else { (hi - 1) as nat }
}

pub open spec fn count_of_nibble(lo: nat) -> nat {
    if lo == 0 { 16 } else { lo }
}

pub open spec fn starts_with2(s: Seq<u8>, a: u8, b: u8) -> bool {
    s.len() >= 2 && s[0] == a && s[1] == b
}

/// Effect of one `;`-separated field.
pub open spec fn field_step(st: LineFields, field: Seq<u8>) -> LineFields {
    if starts_with2(field, 116u8, 61u8) {
        LineFields { text: Some(field.subrange(2, field.len() as int)), ..st }
    } else if starts_with2(field, 112u8, 61u8) {
        match parse_byte_spec(field.subrange(2, field.len() as int), 16) {
            None => LineFields { fault: true, ..st },
            Some(b) => {
                let index = index_of_nibble(b / 16);
                let count = count_of_nibble(b % 16);
                let clash = match st.part {
                    Some(p) => p.1 != count,
                    None => false,
                };
                LineFields { part: Some((index, count)), fault: st.fault || clash, ..st }
            },
        }
    } else {
        st
    }
}

/// Runs over the fields after the `;` at position `c`.
pub open spec fn scan_fields(line: Seq<u8>, c: int, st: LineFields) -> LineFields
    decreases line.len() - c,
{
    if c < 0 || c + 1 >= line.len() {
        st
    } else {
        let next = next_semi(line, c + 1);
        if next <= c || next > line.len() {
            st
        } else {
            scan_fields(line, next, field_step(st, line.subrange(c + 1, next)))
        }
    }
}

pub open spec fn no_fields() -> LineFields {
    LineFields { part: None, text: None, fault: false }
}

/// The fragment a line carries: `Ok(None)` when it does not start with the magic.
pub open spec fn parse_fragment_spec(line: Seq<u8>) -> Result<Option<FragmentView>, Error> {
    if !has_magic(line) {
        Ok(None)
    } else {
        let c = next_semi(line, 0);
        if c >= line.len() || c < 5 || line[4] != 47u8 {
            Err(Error::InvalidInput)
        } else {
            match parse_byte_spec(line.subrange(5, c), 10) {
                None => Err(Error::ValueValidation),
                Some(v) => if v > VERSION { Err(Error::ValueValidation) } else {
                    let f = scan_fields(line, c, no_fields());
                    if f.fault {
                        Err(Error::ValueValidation)
                    } else {
                        match (f.part, f.text) {
                            (Some(p), Some(t)) => if p.0 >= p.1 {
                                Err(Error::ValueValidation)
                            } else {
                                Ok(Some(FragmentView { index: p.0, count: p.1, text: t }))
                            },
                            _ => Err(Error::InvalidInput),
                        }
                    }
                },
            }
        }
    }
}

fn find_semi(line: &[u8], from: usize) -> (r: usize)
    requires
        from <= line@.len(),
    ensures
        r as int == next_semi(line@, from as int),
        from <= r <= line@.len(),
{
    let mut i = from;
    while i < line.len()
        invariant
            from <= i <= line@.len(),
            next_semi(line@, from as int) == next_semi(line@, i as int),
        decreases line@.len() - i,
    {
        if line[i] == 59u8 {
            return i;
        }
        i += 1;
    }
    i
}

fn digit_exec(c: u8, radix: usize) -> (r: Option<usize>)
    requires
        radix == 10 || radix == 16,
    ensures
        r matches Some(v) ==> digit_value(c, radix as nat) == Some(v as nat) && v < radix,
        r is None ==> digit_value(c, radix as nat) is None,
{
    if 48 <= c && c <= 57 {
        Some((c - 48) as usize)
    } else if radix == 16 && 97 <= c && c <= 102 {
        Some((c - 87) as usize)
    } else if radix == 16 && 65 <= c && c <= 70 {
        Some((c - 55) as usize)
    } else {
        None
    }
}

/// Reads `s[start..end]` as a byte written in `radix` (10 or 16).
pub fn parse_byte(s: &[u8], start: usize, end: usize, radix: usize) -> (r: Option<usize>)
    requires
        start <= end <= s@.len(),
        radix == 10 || radix == 16,
    ensures
        r matches Some(v) ==> parse_byte_spec(s@.subrange(start as int, end as int), radix as nat)
            == Some(v as nat) && v < 256,
        r is None ==> parse_byte_spec(s@.subrange(start as int, end as int), radix as nat) is None,
{
    let ghost whole = s@.subrange(start as int, end as int);
    let mut i = start;
    let ghost digits = s@.subrange(i as int, end as int);
    if i == end {
        return None;
    }
    let first = i;
    let mut acc: usize = 0;
    while i < end
        invariant
            first <= i <= end <= s@.len(),
            radix == 10 || radix == 16,
            digits == s@.subrange(first as int, end as int),
            digits.len() > 0,
            whole == s@.subrange(start as int, end as int),
            digits == whole,
            acc <= 256,
            digits_value(s@.subrange(first as int, i as int), radix as nat) == Some(acc as nat),
        decreases end - i,
    {
        let d = digit_exec(s[i], radix);
        assert(s@.subrange(first as int, i + 1).drop_last() == s@.subrange(first as int, i as int));
        match d {
            None => {
                proof {
                    assert(digits[i - first] == s@[i as int]);
                    lemma_digits_none(digits, (i - first) as nat, radix as nat);
                }
                return None;
            },
            Some(v) => {
                assert(acc * radix <= 256 * 16) by (nonlinear_arith)
                    requires acc <= 256, radix <= 16;
                let next = acc * radix + v;
                acc = if next > 255 { 256 } else { next };
            },
        }
        i += 1;
    }
    assert(s@.subrange(first as int, i as int) == digits);
    if acc <= 255 { Some(acc) } else { None }
}

/// A string with a non-digit at position `k` has no value.
proof fn lemma_digits_none(s: Seq<u8>, k: nat, radix: nat)
    requires
        k < s.len(),
        digit_value(s[k as int], radix) is None,
    ensures
        digits_value(s, radix) is None,
    decreases s.len(),
{
    if k + 1 < s.len() {
        lemma_digits_none(s.drop_last(), k, radix);
    }
}

/// Reads the fragment a line carries; lines without the magic give `Ok(None)`.
#[verifier::rlimit(40)]
pub fn parse_fragment(line: &[u8]) -> (r: Result<Option<Fragment>, Error>)
    ensures
        match (r, parse_fragment_spec(line@)) {
            (Ok(Some(f)), Ok(Some(v))) => f@ == v,
            (Ok(None), Ok(None)) => true,
            (Err(e), Err(e2)) => e == e2,
            _ => false,
        },
{
    if line.len() < 4 || line[0] != 81u8 || line[1] != 82u8 || line[2] != 83u8 || line[3] != 84u8 {
        assert(!has_magic(line@) || (line@[0] == 81u8 && line@[1] == 82u8 && line@[2] == 83u8
            && line@[3] == 84u8)) by {
            if has_magic(line@) {
                assert(line@.subrange(0, 4)[0] == line@[0]);
                assert(line@.subrange(0, 4)[1] == line@[1]);
                assert(line@.subrange(0, 4)[2] == line@[2]);
                assert(line@.subrange(0, 4)[3] == line@[3]);
            }
        }
        return Ok(None);
    }
    assert(line@.subrange(0, 4) =~= magic());
    let c = find_semi(line, 0);
    if c >= line.len() || c < 5 || line[4] != 47u8 {
        return Err(Error::InvalidInput);
    }
    match parse_byte(line, 5, c, 10) {
        None => {
            return Err(Error::ValueValidation);
        },
        Some(v) => {
            if v > VERSION as usize {
                return Err(Error::ValueValidation);
            }
        },
    }
    let mut part: Option<(usize, usize)> = None;
    let mut text: Option<(usize, usize)> = None;
    let mut fault = false;
    let mut pos = c;
    while line.len() - pos > 1
        invariant
            c <= pos <= line@.len(),
            ({
                let st = LineFields {
                    part: match part {
                        Some(p) => Some((p.0 as nat, p.1 as nat)),
                        None => None,
                    },
                    text: match text {
                        Some(t) => Some(line@.subrange(t.0 as int, t.1 as int)),
                        None => None,
                    },
                    fault,
                };
                scan_fields(line@, pos as int, st) == scan_fields(line@, c as int, no_fields())
            }),
            text matches Some(t) ==> t.0 <= t.1 <= line@.len(),
            part matches Some(p) ==> p.0 < 16 && 1 <= p.1 <= 16,
        decreases line@.len() - pos,
    {
        let start = pos + 1;
        let next = find_semi(line, start);
        let ghost field = line@.subrange(start as int, next as int);
        if next - start >= 2 && line[start] == 116u8 && line[start + 1] == 61u8 {
            text = Some((start + 2, next));
            assert(line@.subrange(start + 2, next as int) =~= field.subrange(2, field.len() as int));
        } else if next - start >= 2 && line[start] == 112u8 && line[start + 1] == 61u8 {
            assert(line@.subrange(start + 2, next as int) =~= field.subrange(2, field.len() as int));
            match parse_byte(line, start + 2, next, 16) {
                None => {
                    fault = true;
                },
                Some(b) => {
                    let hi = b / 16;
                    let lo = b % 16;
                    let index = if hi == 0 { 15 } else { hi - 1 };
                    let count = if lo == 0 { 16 } else { lo };
                    match part {
                        Some(p) => {
                            if p.1 != count {
                                fault = true;
                            }
                        },
                        None => {},
                    }
                    part = Some((index, count));
                },
            }
        }
        pos = next;
    }
    if fault {
        return Err(Error::ValueValidation);
    }
    match (part, text) {
        (Some(p), Some(t)) => {
            if p.0 >= p.1 {
                Err(Error::ValueValidation)
            } else {
                let t_bytes = copy_range(line, t.0, t.1);
                Ok(Some(Fragment { index: p.0, count: p.1, text: t_bytes }))
            }
        },
        _ => Err(Error::InvalidInput),
    }
}

/// A copy of `s[start..end]`.
pub fn copy_range(s: &[u8], start: usize, end: usize) -> (r: Vec<u8>)
    requires
        start <= end <= s@.len(),
    ensures
        r@ == s@.subrange(start as int, end as int),
{
    let mut r: Vec<u8> = Vec::new();
    let mut i = start;
    while i < end
        invariant
            start <= i <= end <= s@.len(),
            r@ == s@.subrange(start as int, i as int),
        decreases end - i,
    {
        r.push(s[i]);
        i += 1;
        assert(r@ =~= s@.subrange(start as int, i as int));
    }
    r
}


/// No `;` between `from` and the end: the next field boundary is the end.
pub proof fn lemma_next_semi_end(line: Seq<u8>, from: int)
    requires
        0 <= from <= line.len(),
        forall|i: int| from <= i < line.len() ==> line[i] != 59u8,
    ensures
        next_semi(line, from) == line.len(),
    decreases line.len() - from,
{
    if from < line.len() {
        lemma_next_semi_end(line, from + 1);
    }
}

/// The digit of every nibble reads back as that nibble.
pub proof fn lemma_hex_digit(d: nat)
    requires
        d < 16,
    ensures
        hex_value(hex_digit(d)) == Some(d),
        hex_digit(d) != 59u8,
        hex_digit(d) != 10u8,
{
}

/// A text safe to frame: no field separator, no line break, no carriage return.
pub open spec fn frameable(t: Seq<u8>) -> bool {
    forall|i: int| 0 <= i < t.len() ==> #[trigger] t[i] != 59u8 && t[i] != 10u8 && t[i] != 13u8
}

/// Parsing a framed line gives back its part index, part count and text.
pub proof fn lemma_parse_frame(t: Seq<u8>, index: nat, count: nat)
    requires
        index < count <= 16,
        frameable(t),
    ensures
        parse_fragment_spec(frame_spec(t, index, count))
            == Ok::<Option<FragmentView>, Error>(Some(FragmentView { index, count, text: t })),
{
    let line = frame_spec(t, index, count);
    let b = part_byte(index, count);
    assert(b / 16 < 16 && b % 16 < 16);
    lemma_hex_digit(b / 16);
    lemma_hex_digit(b % 16);
    assert(line.subrange(0, 4) =~= magic());
    assert(line[6] == 59u8);
    assert(next_semi(line, 6) == 6);
    assert(next_semi(line, 5) == 6);
    assert(next_semi(line, 4) == 6);
    assert(next_semi(line, 3) == 6);
    assert(next_semi(line, 2) == 6);
    assert(next_semi(line, 1) == 6);
    assert(next_semi(line, 0) == 6);
    let v = line.subrange(5, 6);
    assert(v =~= seq![49u8]);
    assert(v.drop_last() =~= Seq::<u8>::empty());
    assert(digits_value(Seq::<u8>::empty(), 10) == Some(0nat));
    assert(v.last() == 49u8);
    assert(digit_value(v.last(), 10) == Some(1nat));
    assert(digits_value(v, 10) == Some(1nat));
    assert(parse_byte_spec(v, 10) == Some(1nat));
    assert(line[11] == 59u8);
    assert(next_semi(line, 11) == 11);
    assert(next_semi(line, 10) == 11);
    assert(next_semi(line, 9) == 11);
    assert(next_semi(line, 8) == 11);
    assert(next_semi(line, 7) == 11);
    let pf = line.subrange(7, 11);
    let hx = pf.subrange(2, pf.len() as int);
    assert(hx =~= seq![hex_digit(b / 16), hex_digit(b % 16)]);
    assert(hx.drop_last() =~= seq![hex_digit(b / 16)]);
    assert(hx.drop_last().drop_last() =~= Seq::<u8>::empty());
    assert(digits_value(Seq::<u8>::empty(), 16) == Some(0nat));
    assert(hx.drop_last().last() == hex_digit(b / 16));
    assert(hx.last() == hex_digit(b % 16));
    assert(digits_value(hx.drop_last(), 16) == Some(b / 16));
    assert(digits_value(hx, 16) == Some(b)) by {
        assert((b / 16) * 16 + b % 16 == b);
    }
    assert(parse_byte_spec(hx, 16) == Some(b));
    assert(index_of_nibble(b / 16) == index) by {
        assert(b / 16 == (index + 1) % 16);
    }
    assert(count_of_nibble(b % 16) == count) by {
        assert(b % 16 == count % 16);
    }
    let st1 = field_step(no_fields(), pf);
    assert(st1 == LineFields { part: Some((index, count)), text: None, fault: false });
    assert forall|i: int| 12 <= i < line.len() implies line[i] != 59u8 by {
        if i >= 14 {
            assert(line[i] == t[i - 14]);
        }
    }
    lemma_next_semi_end(line, 12);
    let tf = line.subrange(12, line.len() as int);
    assert(tf.subrange(2, tf.len() as int) =~= t);
    let st2 = field_step(st1, tf);
    assert(st2 == LineFields { part: Some((index, count)), text: Some(t), fault: false });
    assert(scan_fields(line, line.len() as int, st2) == st2);
    assert(scan_fields(line, 11, st1) == st2);
    assert(scan_fields(line, 6, no_fields()) == st2);
}

} // verus!
