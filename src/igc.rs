//! Decoding of IGC fix ("B") records into points.
use vstd::prelude::*;
use vstd::slice::slice_subrange;
use crate::point::{Point, is_stable_sort, sort_by_time};

verus! {

/// ASCII `B`, the first byte of a fix record.
pub const FIX_RECORD: u8 = 66;

/// ASCII `N`, the northern hemisphere marker.
pub const NORTH: u8 = 78;

/// ASCII `E`, the eastern hemisphere marker.
pub const EAST: u8 = 69;

/// Bytes that a fix record must hold at least.
pub const FIX_LEN: usize = 24;

pub open spec fn is_digit(b: u8) -> bool {
    48 <= b <= 57
}

/// Decimal value of the digits `s[lo..hi]`.
pub open spec fn num(s: Seq<u8>, lo: int, hi: int) -> int
    decreases hi - lo,
{
    if hi <= lo {
        0
    } else {
        num(s, lo, hi - 1) * 10 + (s[hi - 1] - 48)
    }
}

pub open spec fn pow10(n: nat) -> int
    decreases n,
{
    if n == 0 {
        1
    } else {
        10 * pow10((n - 1) as nat)
    }
}

pub open spec fn all_digits(s: Seq<u8>, lo: int, hi: int) -> bool {
    forall|k: int| lo <= k < hi ==> is_digit(#[trigger] s[k])
}

proof fn lemma_num_bound(s: Seq<u8>, lo: int, hi: int)
    requires
        0 <= lo <= hi <= s.len(),
        all_digits(s, lo, hi),
    ensures
        0 <= num(s, lo, hi) < pow10((hi - lo) as nat),
    decreases hi - lo,
{
    if hi > lo {
        lemma_num_bound(s, lo, hi - 1);
    }
}

/// Reads the digits `s[lo..hi]` as an unsigned number.
fn read_number(s: &[u8], lo: usize, hi: usize) -> (r: u64)
    requires
        lo <= hi <= s@.len(),
        hi - lo <= 6,
        all_digits(s@, lo as int, hi as int),
    ensures
        r == num(s@, lo as int, hi as int),
{
    let mut v: u64 = 0;
    let mut j: usize = lo;
    while j < hi
        invariant
            lo <= j <= hi <= s@.len(),
            hi - lo <= 6,
            all_digits(s@, lo as int, hi as int),
            v == num(s@, lo as int, j as int),
            v < pow10((j - lo) as nat),
        decreases hi - j,
    {
        assert(is_digit(s@[j as int]));
        assert(pow10((j + 1 - lo) as nat) == 10 * pow10((j - lo) as nat));
        assert(pow10((j - lo) as nat) <= 100000) by {
            reveal_with_fuel(pow10, 7);
        }
        v = v * 10 + (s[j] - 48) as u64;
        j = j + 1;
    }
    v
}

/// Millionths of a degree for `deg` degrees, `min` minutes and `thou`
/// thousandths of a minute, rounded to the nearest (never a tie).
pub open spec fn coord_micro(deg: int, min: int, thou: int) -> int {
    (50 * (60000 * deg + 1000 * min + thou) + 1) / 3
}

/// A latitude field `DDMMxmmH`: degrees, minutes, one byte that is not read,
/// two digits of thousandths of a minute, and `N` or any other byte for south.
pub open spec fn lat_field_ok(f: Seq<u8>) -> bool {
    f.len() == 8 && all_digits(f, 0, 4) && all_digits(f, 5, 7)
}

pub open spec fn lat_micro(f: Seq<u8>) -> int {
    let m = coord_micro(num(f, 0, 2), num(f, 2, 4), num(f, 5, 7));
    if f[7] == NORTH { m } else { -m }
}

/// A longitude field `DDDMMxmmH`, read as the latitude field with three
/// degree digits and `E` for east.
pub open spec fn lon_field_ok(f: Seq<u8>) -> bool {
    f.len() == 9 && all_digits(f, 0, 5) && all_digits(f, 6, 8)
}

pub open spec fn lon_micro(f: Seq<u8>) -> int {
    let m = coord_micro(num(f, 0, 3), num(f, 3, 5), num(f, 6, 8));
    if f[8] == EAST { m } else { -m }
}

fn micro_of(deg: u64, min: u64, thou: u64) -> (r: i64)
    requires
        deg < 1000,
        min < 100,
        thou < 100,
    ensures
        r == coord_micro(deg as int, min as int, thou as int),
{
    ((50 * (60000 * deg + 1000 * min + thou) + 1) / 3) as i64
}

/// Decodes a latitude field into millionths of a degree.
pub fn lat_to_decimal(gps: &[u8]) -> (r: i64)
    requires
        lat_field_ok(gps@),
    ensures
        r == lat_micro(gps@),
{
    proof {
        lemma_num_bound(gps@, 0, 2);
        lemma_num_bound(gps@, 2, 4);
        lemma_num_bound(gps@, 5, 7);
        reveal_with_fuel(pow10, 3);
    }
    let m = micro_of(read_number(gps, 0, 2), read_number(gps, 2, 4), read_number(gps, 5, 7));
    if gps[7] == NORTH { m } else { -m }
}

/// Decodes a longitude field into millionths of a degree.
pub fn lon_to_decimal(gps: &[u8]) -> (r: i64)
    requires
        lon_field_ok(gps@),
    ensures
        r == lon_micro(gps@),
{
    proof {
        lemma_num_bound(gps@, 0, 3);
        lemma_num_bound(gps@, 3, 5);
        lemma_num_bound(gps@, 6, 8);
        reveal_with_fuel(pow10, 4);
    }
    let m = micro_of(read_number(gps, 0, 3), read_number(gps, 3, 5), read_number(gps, 6, 8));
    if gps[8] == EAST { m } else { -m }
}

/// Why a fix record could not be read. `line` counts the input's lines from 0.
#[derive(Clone, Copy, Debug, PartialEq, Eq, Structural)]
pub enum ParseError {
    /// The record is shorter than the fields it must hold.
    Short { line: usize },
    /// A numeric field holds something other than an ASCII digit at `offset`.
    NotDigit { line: usize, offset: usize },
}

impl ParseError {
    pub open spec fn line_spec(self) -> usize {
        match self {
            ParseError::Short { line } => line,
            ParseError::NotDigit { line, .. } => line,
        }
    }

    /// A short description of the failure.
    pub fn describe(&self) -> (r: String) {
        match self {
            ParseError::Short { .. } => "fix record too short".to_string(),
            ParseError::NotDigit { .. } => "non-digit in a numeric field of a fix record".to_string(),
        }
    }
}

/// Offsets of a fix record that must hold digits: time, latitude and
/// longitude degrees, minutes and the two thousandths digits that are read.
pub open spec fn digit_pos(k: int) -> bool {
    ||| 1 <= k <= 10
    ||| 12 <= k <= 13
    ||| 15 <= k <= 19
    ||| 21 <= k <= 22
}

pub open spec fn is_fix_line(l: Seq<u8>) -> bool {
    l.len() > 0 && l[0] == FIX_RECORD
}

pub open spec fn well_formed(l: Seq<u8>) -> bool {
    &&& l.len() >= FIX_LEN
    &&& forall|k: int| digit_pos(k) ==> is_digit(#[trigger] l[k])
}

/// The point that a well-formed fix record describes.
pub open spec fn fix_of(l: Seq<u8>) -> Point {
    Point {
        time: num(l, 1, 7) as usize,
        lat: lat_micro(l.subrange(7, 15)) as i64,
        lon: lon_micro(l.subrange(15, 24)) as i64,
    }
}

pub open spec fn fix_opt(l: Seq<u8>) -> Option<Point> {
    if is_fix_line(l) { Some(fix_of(l)) } else { None }
}

/// The points of the fix records among `lines`, in input order.
pub open spec fn fixes(lines: Seq<Seq<u8>>) -> Seq<Point> {
    lines.filter_map(|l: Seq<u8>| fix_opt(l))
}

/// The error reported for the malformed fix record `l` at line `i`.
pub open spec fn error_for(l: Seq<u8>, i: usize, e: ParseError) -> bool {
    match e {
        ParseError::Short { line } => line == i && l.len() < FIX_LEN,
        ParseError::NotDigit { line, offset } => {
            &&& line == i
            &&& l.len() >= FIX_LEN
            &&& digit_pos(offset as int)
            &&& !is_digit(l[offset as int])
            &&& forall|k: int| 0 <= k < offset && digit_pos(k) ==> is_digit(#[trigger] l[k])
        },
    }
}

pub open spec fn views(lines: Seq<Vec<u8>>) -> Seq<Seq<u8>> {
    lines.map_values(|l: Vec<u8>| l@)
}

/// Every fix record among `lines` is well formed.
pub open spec fn all_well_formed(lines: Seq<Seq<u8>>) -> bool {
    forall|i: int| 0 <= i < lines.len() && is_fix_line(#[trigger] lines[i]) ==> well_formed(lines[i])
}

/// Reads one fix record.
pub fn parse_fix(line: &Vec<u8>, index: usize) -> (r: Result<Point, ParseError>)
    requires
        is_fix_line(line@),
    ensures
        r is Ok <==> well_formed(line@),
        r matches Ok(p) ==> p == fix_of(line@),
        r matches Err(e) ==> error_for(line@, index, e),
{
    if line.len() < FIX_LEN {
        return Err(ParseError::Short { line: index });
    }
    let mut k: usize = 1;
    while k < FIX_LEN
        invariant
            1 <= k <= FIX_LEN <= line@.len(),
            forall|j: int| 0 <= j < k && digit_pos(j) ==> is_digit(#[trigger] line@[j]),
        decreases FIX_LEN - k,
    {
        let b = line[k];
        if (k <= 10 || k == 12 || k == 13 || (15 <= k && k <= 19) || k == 21 || k == 22)
            && !(48 <= b && b <= 57) {
            return Err(ParseError::NotDigit { line: index, offset: k });
        }
        k = k + 1;
    }
    let s = line.as_slice();
    proof {
        lemma_num_bound(s@, 1, 7);
        reveal_with_fuel(pow10, 7);
    }
    let time = read_number(s, 1, 7) as usize;
    let lat_field = slice_subrange(s, 7, 15);
    let lon_field = slice_subrange(s, 15, 24);
    assert(lat_field_ok(lat_field@));
    assert(lon_field_ok(lon_field@));
    let lat = lat_to_decimal(lat_field);
    let lon = lon_to_decimal(lon_field);
    Ok(Point { time, lat, lon })
}

/// What parsing `lines` yields: the ordered trace of their fix records when
/// all of those are well formed, else the error of the first malformed one.
pub open spec fn parse_outcome(lines: Seq<Seq<u8>>, r: Result<Vec<Point>, ParseError>) -> bool {
    &&& r is Ok <==> all_well_formed(lines)
    &&& r matches Ok(t) ==> is_stable_sort(fixes(lines), t@)
    &&& r matches Err(e) ==> {
        let i = e.line_spec() as int;
        &&& 0 <= i < lines.len()
        &&& is_fix_line(lines[i])
        &&& error_for(lines[i], e.line_spec(), e)
        &&& all_well_formed(lines.take(i))
    }
}

/// Builds the trace of the fix records among `lines`: each record decoded,
/// then the points ordered by time, equal times in input order. Lines that
/// are not fix records are passed over; the first malformed fix record fails
/// the whole parse.
pub fn trace_from_lines(lines: &Vec<Vec<u8>>) -> (r: Result<Vec<Point>, ParseError>)
    ensures
        parse_outcome(views(lines@), r),
{
    let ghost ls = views(lines@);
    let ghost f = |l: Seq<u8>| fix_opt(l);
    let mut pts: Vec<Point> = Vec::new();
    let mut i: usize = 0;
    while i < lines.len()
        invariant
            ls == views(lines@),
            f == (|l: Seq<u8>| fix_opt(l)),
            i <= lines@.len(),
            all_well_formed(ls.take(i as int)),
            pts@ == ls.take(i as int).filter_map(f),
        decreases lines.len() - i,
    {
        let line = &lines[i];
        assert(ls[i as int] == line@);
        assert(lines@[i as int]@ == ls[i as int]);
        proof {
            ls.lemma_filter_map_take_succ(f, i as int);
        }
        if line.len() > 0 && line[0] == FIX_RECORD {
            match parse_fix(line, i) {
                Ok(p) => {
                    pts.push(p);
                },
                Err(e) => {
                    return Err(e);
                },
            }
        }
        assert(all_well_formed(ls.take(i + 1))) by {
            assert forall|j: int| 0 <= j < i + 1 && is_fix_line(#[trigger] ls.take(i + 1)[j])
                implies well_formed(ls.take(i + 1)[j]) by {
                if j < i {
                    assert(ls.take(i + 1)[j] == ls.take(i as int)[j]);
                }
            }
        }
        i = i + 1;
    }
    assert(ls.take(i as int) == ls);
    Ok(sort_by_time(pts))
}

/// Decoding a latitude field depends on nothing but the bytes it reads: two
/// fields that agree on those bytes, equal fields among them, decode to the
/// same value. The byte between minutes and thousandths is never read.
pub proof fn lemma_lat_decode_deterministic(f1: Seq<u8>, f2: Seq<u8>)
    requires
        lat_field_ok(f1),
        lat_field_ok(f2),
        forall|k: int| 0 <= k < 8 && k != 4 ==> f1[k] == f2[k],
    ensures
        lat_micro(f1) == lat_micro(f2),
{
    assert(num(f1, 0, 2) == num(f2, 0, 2)) by {
        reveal_with_fuel(num, 3);
    }
    assert(num(f1, 2, 4) == num(f2, 2, 4)) by {
        reveal_with_fuel(num, 3);
    }
    assert(num(f1, 5, 7) == num(f2, 5, 7)) by {
        reveal_with_fuel(num, 3);
    }
}

/// ASCII line feed, the line separator.
pub const NEWLINE: u8 = 10;

/// The lines finished so far, and the line being read, after the bytes `s`.
pub open spec fn split_state(s: Seq<u8>) -> (Seq<Seq<u8>>, Seq<u8>)
    decreases s.len(),
{
    if s.len() == 0 {
        (Seq::empty(), Seq::empty())
    } else {
        let (done, cur) = split_state(s.drop_last());
        if s.last() == NEWLINE {
            (done.push(cur), Seq::empty())
        } else {
            (done, cur.push(s.last()))
        }
    }
}

/// The lines of `s`: the pieces between line feeds, without them; a last
/// piece that no line feed ends counts only when it is not empty.
pub open spec fn split_lines(s: Seq<u8>) -> Seq<Seq<u8>> {
    let (done, cur) = split_state(s);
    if cur.len() > 0 { done.push(cur) } else { done }
}

/// Cuts `bytes` into lines at each line feed; no other byte is special.
pub fn lines_of(bytes: &Vec<u8>) -> (r: Vec<Vec<u8>>)
    ensures
        views(r@) == split_lines(bytes@),
{
    let mut done: Vec<Vec<u8>> = Vec::new();
    let mut cur: Vec<u8> = Vec::new();
    let mut i: usize = 0;
    while i < bytes.len()
        invariant
            i <= bytes@.len(),
            (views(done@), cur@) == split_state(bytes@.take(i as int)),
        decreases bytes.len() - i,
    {
        let b = bytes[i];
        assert(bytes@.take(i + 1).drop_last() == bytes@.take(i as int));
        if b == NEWLINE {
            let ghost old_done = done@;
            let line = cur;
            cur = Vec::new();
            done.push(line);
            assert(views(done@) == views(old_done).push(line@));
        } else {
            cur.push(b);
        }
        i = i + 1;
    }
    assert(bytes@.take(i as int) == bytes@);
    if cur.len() > 0 {
        let ghost old_done = done@;
        let ghost last = cur@;
        done.push(cur);
        assert(views(done@) == views(old_done).push(last));
    }
    done
}

/// Parses the contents of an IGC file into its ordered trace.
pub fn trace_from_bytes(bytes: &Vec<u8>) -> (r: Result<Vec<Point>, ParseError>)
    ensures
        parse_outcome(split_lines(bytes@), r),
{
    let lines = lines_of(bytes);
    trace_from_lines(&lines)
}

} // verus!
