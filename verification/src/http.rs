//! Serialization of a reading set into a JSON payload and a minimal HTTP
//! POST request.
//!
//! A temperature is a whole number of sixteenths of a degree, so its decimal
//! text is exact: the integer part, a point, and the fraction's full decimal
//! expansion (at most four digits, trailing zeros dropped, a lone zero for a
//! whole number). This is also the shortest decimal text that parses back to
//! the sampled value, which is what the collector expects. The request is
//! framed by hand: request line, content-type, a content-length naming the
//! exact byte count of the payload, a blank line, the payload verbatim.

use vstd::prelude::*;
use vstd::string::StrSliceExecFns;
use vstd::string::StringExecFns;
use vstd::utf8::is_ascii_chars;

use crate::sensors::{Reading, NUM_SENSORS};

verus! {

/// Capacity of the JSON payload buffer, in bytes.
pub const PAYLOAD_CAPACITY: usize = 128;

/// Capacity of the HTTP request buffer, in bytes.
pub const REQUEST_CAPACITY: usize = 1024;

/// A text buffer's capacity would be exceeded; the cycle's send is skipped.
#[derive(Clone, Copy, PartialEq, Eq, Structural, Debug)]
pub struct CapacityError;

/// The character for one decimal digit.
pub open spec fn digit_char(d: nat) -> char {
    if d == 0 {
        '0'
    } else if d == 1 {
        '1'
    } else if d == 2 {
        '2'
    } else if d == 3 {
        '3'
    } else if d == 4 {
        '4'
    } else if d == 5 {
        '5'
    } else if d == 6 {
        '6'
    } else if d == 7 {
        '7'
    } else if d == 8 {
        '8'
    } else {
        '9'
    }
}

/// The base-10 text of `n`: no leading zeros, a single `0` for zero.
pub open spec fn spec_dec(n: nat) -> Seq<char>
    decreases n,
{
    if n < 10 {
        seq![digit_char(n)]
    } else {
        spec_dec(n / 10).push(digit_char(n % 10))
    }
}

/// Relies on numtoa's `numtoa_str`: writes the base-10 digit string of the
/// integer (no leading zeros, `"0"` for zero) into the buffer and returns it
/// as text. Twenty bytes hold the digits of any `u64`, so the call cannot
/// run out of buffer.
#[verifier::external_body]
fn dec_u64(n: u64) -> (r: String)
    ensures
        r@ == spec_dec(n as nat),
{
    let mut buf = [0u8; 20];
    numtoa::NumToA::numtoa_str(n, 10, &mut buf).to_string()
}

/// The decimal expansion of `f / 16`, for `f < 16`: at most four digits,
/// trailing zeros dropped, a single zero for a whole number.
pub open spec fn spec_frac_text(f: nat) -> Seq<char> {
    if f == 0 {
        "0"@
    } else if f == 1 {
        "0625"@
    } else if f == 2 {
        "125"@
    } else if f == 3 {
        "1875"@
    } else if f == 4 {
        "25"@
    } else if f == 5 {
        "3125"@
    } else if f == 6 {
        "375"@
    } else if f == 7 {
        "4375"@
    } else if f == 8 {
        "5"@
    } else if f == 9 {
        "5625"@
    } else if f == 10 {
        "625"@
    } else if f == 11 {
        "6875"@
    } else if f == 12 {
        "75"@
    } else if f == 13 {
        "8125"@
    } else if f == 14 {
        "875"@
    } else {
        "9375"@
    }
}

/// The fraction digits of `f / 16`.
fn frac_str(f: u64) -> (r: &'static str)
    requires
        f < 16,
    ensures
        r@ == spec_frac_text(f as nat),
{
    if f == 0 {
        "0"
    } else if f == 1 {
        "0625"
    } else if f == 2 {
        "125"
    } else if f == 3 {
        "1875"
    } else if f == 4 {
        "25"
    } else if f == 5 {
        "3125"
    } else if f == 6 {
        "375"
    } else if f == 7 {
        "4375"
    } else if f == 8 {
        "5"
    } else if f == 9 {
        "5625"
    } else if f == 10 {
        "625"
    } else if f == 11 {
        "6875"
    } else if f == 12 {
        "75"
    } else if f == 13 {
        "8125"
    } else if f == 14 {
        "875"
    } else {
        "9375"
    }
}

/// The decimal text of a whole number of sixteenths of a degree: integer
/// part, point, exact fraction digits.
pub open spec fn spec_mag_text(m: nat) -> Seq<char> {
    spec_dec(m / 16) + "."@ + spec_frac_text(m % 16)
}

/// The decimal text of a temperature in sixteenths of a degree, signed.
pub open spec fn spec_temp_text(t: int) -> Seq<char> {
    if t < 0 {
        "-"@ + spec_mag_text((-t) as nat)
    } else {
        spec_mag_text(t as nat)
    }
}

/// Formats one temperature as its exact decimal text.
pub fn format_temperature(t: i32) -> (r: String)
    ensures
        r@ == spec_temp_text(t as int),
{
    let mut out = String::new();
    let mag: u64;
    if t < 0 {
        out.append("-");
        mag = (-(t as i64)) as u64;
    } else {
        mag = t as u64;
    }
    let whole = dec_u64(mag / 16);
    out.append(whole.as_str());
    out.append(".");
    out.append(frac_str(mag % 16));
    proof {
        assert(out@ =~= spec_temp_text(t as int));
    }
    out
}

/// The comma-separated temperature texts of the readings, in order.
pub open spec fn spec_temps(rs: Seq<Reading>) -> Seq<char>
    decreases rs.len(),
{
    if rs.len() == 0 {
        Seq::empty()
    } else if rs.len() == 1 {
        spec_temp_text(rs[0].temperature_sixteenths as int)
    } else {
        spec_temps(rs.drop_last()) + ","@ + spec_temp_text(rs.last().temperature_sixteenths as int)
    }
}

/// The JSON payload carrying the readings' temperatures, in reading order.
pub open spec fn spec_payload(rs: Seq<Reading>) -> Seq<char> {
    "{ \"temperature\": ["@ + spec_temps(rs) + "]}"@
}

/// Builds the JSON payload for a cycle's readings.
///
/// Succeeds, with exactly the specified text, whenever that text fits the
/// payload buffer; reports a capacity error (and the cycle's send is then
/// skipped) exactly when it does not.
pub fn create_json_payload(readings: &Vec<Reading>) -> (r: Result<String, CapacityError>)
    ensures
        r matches Ok(p) ==> p@ == spec_payload(readings@) && p@.len() <= PAYLOAD_CAPACITY,
        r is Err <==> spec_payload(readings@).len() > PAYLOAD_CAPACITY,
        readings@.len() == NUM_SENSORS ==> r is Ok,
{
    proof {
        if readings@.len() == NUM_SENSORS {
            lemma_complete_set_fits(readings@);
        }
    }
    let mut payload = String::new();
    payload.append("{ \"temperature\": [");
    let mut i: usize = 0;
    while i < readings.len()
        invariant
            0 <= i <= readings@.len(),
            payload@ == "{ \"temperature\": ["@ + spec_temps(readings@.take(i as int)),
        decreases readings@.len() - i,
    {
        if i > 0 {
            payload.append(",");
        }
        let t = format_temperature(readings[i].temperature_sixteenths);
        payload.append(t.as_str());
        proof {
            let prefix = readings@.take(i as int);
            let next = readings@.take(i + 1);
            assert(next.drop_last() =~= prefix);
            assert(next.last() == readings@[i as int]);
            assert(payload@ =~= "{ \"temperature\": ["@ + spec_temps(next));
        }
        i = i + 1;
    }
    payload.append("]}");
    proof {
        assert(readings@.take(i as int) =~= readings@);
        assert(payload@ =~= spec_payload(readings@));
    }
    if payload.as_str().unicode_len() <= PAYLOAD_CAPACITY {
        Ok(payload)
    } else {
        Err(CapacityError)
    }
}

/// The full request text: request line, content-type header, a
/// content-length header naming the payload's length, a blank line, the
/// payload verbatim.
pub open spec fn spec_request(rs: Seq<Reading>) -> Seq<char> {
    "POST /data HTTP/1.1\r\n"@ + "Content-Type: application/json\r\n"@ + "Content-Length: "@
        + spec_dec(spec_payload(rs).len()) + "\r\n\r\n"@ + spec_payload(rs)
}

/// Builds the full HTTP POST request for a cycle's readings.
///
/// Succeeds, with exactly the specified text, whenever the payload and the
/// request fit their buffers; reports a capacity error exactly when one of
/// them does not.
pub fn create_http_post_request(readings: &Vec<Reading>) -> (r: Result<String, CapacityError>)
    ensures
        r matches Ok(req) ==> req@ == spec_request(readings@) && req@.len() <= REQUEST_CAPACITY,
        r is Err <==> (spec_payload(readings@).len() > PAYLOAD_CAPACITY || spec_request(
            readings@,
        ).len() > REQUEST_CAPACITY),
        readings@.len() == NUM_SENSORS ==> r is Ok,
{
    proof {
        if readings@.len() == NUM_SENSORS {
            lemma_complete_set_fits(readings@);
        }
    }
    let payload = match create_json_payload(readings) {
        Ok(p) => p,
        Err(e) => {
            return Err(e);
        },
    };
    let len_text = dec_u64(payload.as_str().unicode_len() as u64);
    let mut request = String::new();
    request.append("POST /data HTTP/1.1\r\n");
    request.append("Content-Type: application/json\r\n");
    request.append("Content-Length: ");
    request.append(len_text.as_str());
    request.append("\r\n\r\n");
    request.append(payload.as_str());
    proof {
        assert(request@ =~= spec_request(readings@));
    }
    if request.as_str().unicode_len() <= REQUEST_CAPACITY {
        Ok(request)
    } else {
        Err(CapacityError)
    }
}


/// Decimal digit text is ASCII.
proof fn lemma_dec_ascii(n: nat)
    ensures
        is_ascii_chars(spec_dec(n)),
    decreases n,
{
    if n >= 10 {
        lemma_dec_ascii(n / 10);
        assert forall|i: int| 0 <= i < spec_dec(n).len() implies '\0' <= #[trigger] spec_dec(
            n,
        )[i] <= '\u{7f}' by {
            if i < spec_dec(n / 10).len() {
                assert(spec_dec(n)[i] == spec_dec(n / 10)[i]);
            }
        }
    }
}

/// A temperature's decimal text is ASCII.
proof fn lemma_temp_text_ascii(t: int)
    ensures
        is_ascii_chars(spec_temp_text(t)),
{
    let m = if t < 0 { (-t) as nat } else { t as nat };
    lemma_dec_ascii(m / 16);
    reveal_strlit("-");
    reveal_strlit(".");
    reveal_strlit("0");
    reveal_strlit("0625");
    reveal_strlit("125");
    reveal_strlit("1875");
    reveal_strlit("25");
    reveal_strlit("3125");
    reveal_strlit("375");
    reveal_strlit("4375");
    reveal_strlit("5");
    reveal_strlit("5625");
    reveal_strlit("625");
    reveal_strlit("6875");
    reveal_strlit("75");
    reveal_strlit("8125");
    reveal_strlit("875");
    reveal_strlit("9375");
    assert(is_ascii_chars(spec_frac_text(m % 16)));
    assert forall|i: int| 0 <= i < spec_temp_text(t).len() implies '\0' <= #[trigger] spec_temp_text(
        t,
    )[i] <= '\u{7f}' by {
    }
}

/// The whole payload text is ASCII.
proof fn lemma_temps_ascii(rs: Seq<Reading>)
    ensures
        is_ascii_chars(spec_temps(rs)),
    decreases rs.len(),
{
    reveal_strlit(",");
    if rs.len() == 1 {
        lemma_temp_text_ascii(rs[0].temperature_sixteenths as int);
    } else if rs.len() > 1 {
        lemma_temps_ascii(rs.drop_last());
        lemma_temp_text_ascii(rs.last().temperature_sixteenths as int);
        assert forall|i: int| 0 <= i < spec_temps(rs).len() implies '\0' <= #[trigger] spec_temps(
            rs,
        )[i] <= '\u{7f}' by {
        }
    }
}

/// The serialized texts are ASCII, so their byte lengths equal their
/// character lengths: the content-length digits in the request name the
/// exact number of bytes of the payload that follows them, and sending the
/// request text byte for byte sends exactly that payload.
pub proof fn lemma_serialized_ascii(rs: Seq<Reading>)
    ensures
        is_ascii_chars(spec_payload(rs)),
        is_ascii_chars(spec_request(rs)),
        vstd::utf8::encode_utf8(spec_payload(rs)).len() == spec_payload(rs).len(),
        vstd::utf8::encode_utf8(spec_request(rs)).len() == spec_request(rs).len(),
{
    lemma_temps_ascii(rs);
    lemma_dec_ascii(spec_payload(rs).len());
    reveal_strlit("{ \"temperature\": [");
    reveal_strlit("]}");
    reveal_strlit("POST /data HTTP/1.1\r\n");
    reveal_strlit("Content-Type: application/json\r\n");
    reveal_strlit("Content-Length: ");
    reveal_strlit("\r\n\r\n");
    assert(is_ascii_chars(spec_payload(rs))) by {
        assert forall|i: int| 0 <= i < spec_payload(rs).len() implies '\0'
            <= #[trigger] spec_payload(rs)[i] <= '\u{7f}' by {
        }
    }
    assert(is_ascii_chars(spec_request(rs))) by {
        assert forall|i: int| 0 <= i < spec_request(rs).len() implies '\0'
            <= #[trigger] spec_request(rs)[i] <= '\u{7f}' by {
        }
    }
    vstd::utf8::is_ascii_chars_encode_utf8(spec_payload(rs));
    vstd::utf8::is_ascii_chars_encode_utf8(spec_request(rs));
}

/// The Content-Length header names the exact byte count of the payload that
/// follows the blank line, for any readings: the header digits are the
/// decimal text of the payload's UTF-8 byte length.
pub proof fn lemma_content_length_names_byte_length(rs: Seq<Reading>)
    ensures
        spec_request(rs) == "POST /data HTTP/1.1\r\n"@ + "Content-Type: application/json\r\n"@
            + "Content-Length: "@ + spec_dec(vstd::utf8::encode_utf8(spec_payload(rs)).len())
            + "\r\n\r\n"@ + spec_payload(rs),
{
    lemma_serialized_ascii(rs);
}


/// The four octets of a dotted-quad address.
#[derive(Clone, Copy, PartialEq, Eq, Structural, Debug)]
pub struct Ipv4Octets {
    pub a: u8,
    pub b: u8,
    pub c: u8,
    pub d: u8,
}

/// An ASCII decimal digit.
pub open spec fn is_digit(b: u8) -> bool {
    48 <= b <= 57
}

/// The value of a digit string, most significant digit first.
pub open spec fn digits_val(s: Seq<u8>) -> nat
    decreases s.len(),
{
    if s.len() == 0 {
        0
    } else {
        digits_val(s.drop_last()) * 10 + (s.last() - 48) as nat
    }
}

/// A valid octet text: at least one digit, all digits, value at most 255.
pub open spec fn is_octet_text(s: Seq<u8>) -> bool {
    &&& s.len() >= 1
    &&& forall|j: int| 0 <= j < s.len() ==> is_digit(#[trigger] s[j])
    &&& digits_val(s) <= 255
}

/// Index of the first occurrence of `b` in `s`, or `s.len()` when there is
/// none.
pub open spec fn find_byte(s: Seq<u8>, b: u8) -> nat
    decreases s.len(),
{
    if s.len() == 0 {
        0
    } else if s[0] == b {
        0
    } else {
        1 + find_byte(s.drop_first(), b)
    }
}

/// The dot-separated parts of `s`, in order.
pub open spec fn split_dots(s: Seq<u8>) -> Seq<Seq<u8>>
    decreases s.len(),
{
    let i = find_byte(s, 46);
    if i < s.len() {
        seq![s.take(i as int)] + split_dots(s.skip(i + 1 as int))
    } else {
        seq![s]
    }
}

/// A valid dotted-quad address text: exactly four parts, each a valid octet.
pub open spec fn spec_valid_ip(s: Seq<u8>) -> bool {
    &&& split_dots(s).len() == 4
    &&& forall|k: int| 0 <= k < 4 ==> is_octet_text(#[trigger] split_dots(s)[k])
}

/// The value of part `k` of the address text.
pub open spec fn spec_ip_octet(s: Seq<u8>, k: int) -> nat {
    digits_val(split_dots(s)[k])
}

/// `find_byte` is characterized by: no occurrence before it, an occurrence
/// (or the end) at it.
proof fn lemma_find_byte_at(s: Seq<u8>, b: u8, i: int)
    requires
        0 <= i <= s.len(),
        forall|j: int| 0 <= j < i ==> s[j] != b,
        i < s.len() ==> s[i] == b,
    ensures
        find_byte(s, b) == i,
    decreases s.len(),
{
    if s.len() > 0 && s[0] != b {
        assert(i > 0);
        let t = s.drop_first();
        assert(forall|j: int| 0 <= j < i - 1 ==> t[j] == s[j + 1] && s[j + 1] != b);
        assert(i - 1 < t.len() ==> t[i - 1] == s[i]);
        lemma_find_byte_at(t, b, i - 1);
    }
}

/// Every split has at least one part.
proof fn lemma_split_len_pos(s: Seq<u8>)
    ensures
        split_dots(s).len() >= 1,
    decreases s.len(),
{
    let i = find_byte(s, 46);
    if i < s.len() {
        lemma_split_len_pos(s.skip(i + 1 as int));
    }
}

/// Index of the first occurrence of `b`, or the length when there is none.
fn find_byte_exec(s: &[u8], b: u8) -> (r: usize)
    ensures
        r as nat == find_byte(s@, b),
        r <= s@.len(),
{
    let mut i: usize = 0;
    while i < s.len()
        invariant
            0 <= i <= s@.len(),
            forall|j: int| 0 <= j < i ==> s@[j] != b,
        decreases s@.len() - i,
    {
        if s[i] == b {
            proof {
                lemma_find_byte_at(s@, b, i as int);
            }
            return i;
        }
        i = i + 1;
    }
    proof {
        lemma_find_byte_at(s@, b, i as int);
    }
    i
}

/// Parses one octet text: succeeds exactly on a nonempty all-digit text
/// whose value fits an octet, and returns that value.
fn parse_octet(seg: &[u8]) -> (r: Option<u8>)
    ensures
        r is Some <==> is_octet_text(seg@),
        r matches Some(v) ==> v as nat == digits_val(seg@),
{
    if seg.len() == 0 {
        return None;
    }
    let mut acc: u32 = 0;
    let mut i: usize = 0;
    while i < seg.len()
        invariant
            0 <= i <= seg@.len(),
            forall|j: int| 0 <= j < i ==> is_digit(#[trigger] seg@[j]),
            acc == if digits_val(seg@.take(i as int)) > 255 {
                256nat
            } else {
                digits_val(seg@.take(i as int))
            },
        decreases seg@.len() - i,
    {
        let b = seg[i];
        if b < 48 || b > 57 {
            return None;
        }
        proof {
            assert(seg@.take(i + 1).drop_last() =~= seg@.take(i as int));
            assert(seg@.take(i + 1).last() == seg@[i as int]);
        }
        acc = acc * 10 + ((b - 48) as u32);
        if acc > 256 {
            acc = 256;
        }
        i = i + 1;
    }
    proof {
        assert(seg@.take(i as int) =~= seg@);
    }
    if acc > 255 {
        None
    } else {
        Some(acc as u8)
    }
}

/// Parses a dotted-quad address text, as configured for the remote
/// collector: exactly four dot-separated decimal octets.
///
/// Returns the octets exactly when the text is a valid dotted quad, and
/// nothing otherwise (the caller treats a bad configuration as fatal).
pub fn parse_ip(ip: &[u8]) -> (r: Option<Ipv4Octets>)
    ensures
        r is Some <==> spec_valid_ip(ip@),
        r matches Some(o) ==> {
            &&& o.a as nat == spec_ip_octet(ip@, 0)
            &&& o.b as nat == spec_ip_octet(ip@, 1)
            &&& o.c as nat == spec_ip_octet(ip@, 2)
            &&& o.d as nat == spec_ip_octet(ip@, 3)
        },
{
    let i0 = find_byte_exec(ip, 46);
    if i0 == ip.len() {
        return None;
    }
    let seg0 = vstd::slice::slice_subrange(ip, 0, i0);
    let rest1 = vstd::slice::slice_subrange(ip, i0 + 1, ip.len());
    proof {
        assert(seg0@ =~= ip@.take(i0 as int));
        assert(rest1@ =~= ip@.skip(i0 + 1));
        assert(split_dots(ip@) =~= seq![seg0@] + split_dots(rest1@));
    }
    let i1 = find_byte_exec(rest1, 46);
    if i1 == rest1.len() {
        proof {
            lemma_split_len_pos(rest1@);
        }
        return None;
    }
    let seg1 = vstd::slice::slice_subrange(rest1, 0, i1);
    let rest2 = vstd::slice::slice_subrange(rest1, i1 + 1, rest1.len());
    proof {
        assert(seg1@ =~= rest1@.take(i1 as int));
        assert(rest2@ =~= rest1@.skip(i1 + 1));
        assert(split_dots(rest1@) =~= seq![seg1@] + split_dots(rest2@));
    }
    let i2 = find_byte_exec(rest2, 46);
    if i2 == rest2.len() {
        proof {
            lemma_split_len_pos(rest2@);
        }
        return None;
    }
    let seg2 = vstd::slice::slice_subrange(rest2, 0, i2);
    let seg3 = vstd::slice::slice_subrange(rest2, i2 + 1, rest2.len());
    proof {
        assert(seg2@ =~= rest2@.take(i2 as int));
        assert(seg3@ =~= rest2@.skip(i2 + 1));
        assert(split_dots(rest2@) =~= seq![seg2@] + split_dots(seg3@));
    }
    let i3 = find_byte_exec(seg3, 46);
    if i3 < seg3.len() {
        proof {
            lemma_split_len_pos(seg3@.skip(i3 + 1));
            assert(split_dots(seg3@).len() >= 2);
            assert(split_dots(ip@).len() >= 5);
        }
        return None;
    }
    proof {
        assert(split_dots(seg3@) =~= seq![seg3@]);
        assert(split_dots(ip@) =~= seq![seg0@, seg1@, seg2@, seg3@]);
    }
    let a = match parse_octet(seg0) {
        Some(v) => v,
        None => {
            return None;
        },
    };
    let b = match parse_octet(seg1) {
        Some(v) => v,
        None => {
            return None;
        },
    };
    let c = match parse_octet(seg2) {
        Some(v) => v,
        None => {
            return None;
        },
    };
    let d = match parse_octet(seg3) {
        Some(v) => v,
        None => {
            return None;
        },
    };
    Some(Ipv4Octets { a, b, c, d })
}

/// The first line of a response: everything before the first line feed,
/// with a trailing carriage return dropped.
pub open spec fn spec_first_line(s: Seq<u8>) -> Seq<u8> {
    let i = find_byte(s, 10);
    let line = if i < s.len() {
        s.take(i as int)
    } else {
        s
    };
    if line.len() > 0 && line.last() == 13 {
        line.drop_last()
    } else {
        line
    }
}

/// Extracts the first line of the collector's response, the only part that
/// is inspected and logged.
pub fn first_line<'a>(buf: &'a [u8]) -> (r: &'a [u8])
    ensures
        r@ == spec_first_line(buf@),
{
    let i = find_byte_exec(buf, 10);
    let end = if i < buf.len() {
        i
    } else {
        buf.len()
    };
    let line = vstd::slice::slice_subrange(buf, 0, end);
    proof {
        if i < buf.len() {
            assert(line@ =~= buf@.take(i as int));
        } else {
            assert(line@ =~= buf@);
        }
    }
    if line.len() > 0 && line[line.len() - 1] == 13 {
        let trimmed = vstd::slice::slice_subrange(line, 0, line.len() - 1);
        proof {
            assert(trimmed@ =~= line@.drop_last());
        }
        trimmed
    } else {
        line
    }
}

/// One step of the reporting task's write loop: of the `total` request
/// bytes, `sent` were already accepted and the transport just accepted `n`
/// more. Yields the new progress, or nothing when the transport made no
/// progress or claimed more than remained (either aborts the cycle, so no
/// partial request is ever followed up within the same connection).
pub fn advance_write(sent: usize, n: usize, total: usize) -> (r: Option<usize>)
    requires
        sent <= total,
    ensures
        r == if 1 <= n <= total - sent {
            Some((sent + n) as usize)
        } else {
            None::<usize>
        },
{
    if n >= 1 && n <= total - sent {
        Some(sent + n)
    } else {
        None
    }
}


/// Powers of ten, for digit-count bounds.
pub open spec fn pow10(k: nat) -> nat
    decreases k,
{
    if k == 0 {
        1
    } else {
        10 * pow10((k - 1) as nat)
    }
}

/// A number below `pow10(k)` has at most `k` digits.
proof fn lemma_dec_len(n: nat, k: nat)
    requires
        k >= 1,
        n < pow10(k),
    ensures
        1 <= spec_dec(n).len() <= k,
    decreases k,
{
    if n >= 10 {
        let p = pow10((k - 1) as nat);
        if k == 1 {
            assert(pow10(1) == 10);
            assert(false);
        }
        assert(pow10(k) == 10 * p);
        assert(n / 10 < p) by (nonlinear_arith)
            requires
                n < 10 * p,
                p >= 1,
        ;
        lemma_dec_len(n / 10, (k - 1) as nat);
    }
}

/// The small powers of ten the length bounds use.
proof fn lemma_pow10_values()
    ensures
        pow10(3) == 1000,
        pow10(9) == 1000000000,
{
    assert(pow10(0) == 1);
    assert(pow10(1) == 10);
    assert(pow10(2) == 100);
    assert(pow10(3) == 1000);
    assert(pow10(4) == 10000);
    assert(pow10(5) == 100000);
    assert(pow10(6) == 1000000);
    assert(pow10(7) == 10000000);
    assert(pow10(8) == 100000000);
    assert(pow10(9) == 1000000000);
}

/// A temperature's text is at most 15 characters: a sign, at most nine
/// integer digits, the point, at most four fraction digits.
proof fn lemma_temp_text_len(t: int)
    requires
        -0x8000_0000 <= t < 0x8000_0000,
    ensures
        spec_temp_text(t).len() <= 15,
{
    reveal_strlit("-");
    reveal_strlit(".");
    reveal_strlit("0");
    reveal_strlit("0625");
    reveal_strlit("125");
    reveal_strlit("1875");
    reveal_strlit("25");
    reveal_strlit("3125");
    reveal_strlit("375");
    reveal_strlit("4375");
    reveal_strlit("5");
    reveal_strlit("5625");
    reveal_strlit("625");
    reveal_strlit("6875");
    reveal_strlit("75");
    reveal_strlit("8125");
    reveal_strlit("875");
    reveal_strlit("9375");
    let m: nat = if t < 0 {
        (-t) as nat
    } else {
        t as nat
    };
    lemma_pow10_values();
    assert(m / 16 < pow10(9));
    lemma_dec_len(m / 16, 9);
    assert(spec_frac_text(m % 16).len() <= 4);
}

/// The joined temperature texts take at most sixteen characters per
/// reading: one separator and one fifteen-character text each.
proof fn lemma_temps_len(rs: Seq<Reading>)
    ensures
        spec_temps(rs).len() <= 16 * rs.len(),
    decreases rs.len(),
{
    reveal_strlit(",");
    if rs.len() == 1 {
        lemma_temp_text_len(rs[0].temperature_sixteenths as int);
    } else if rs.len() > 1 {
        lemma_temps_len(rs.drop_last());
        lemma_temp_text_len(rs.last().temperature_sixteenths as int);
    }
}

/// A complete reading set always fits both buffers: serializing the
/// deployment's `NUM_SENSORS` readings can never hit the capacity error, so
/// the reporting task is owed a request for every reading set it receives.
pub proof fn lemma_complete_set_fits(rs: Seq<Reading>)
    requires
        rs.len() == NUM_SENSORS,
    ensures
        spec_payload(rs).len() <= PAYLOAD_CAPACITY,
        spec_request(rs).len() <= REQUEST_CAPACITY,
{
    reveal_strlit("{ \"temperature\": [");
    reveal_strlit("]}");
    reveal_strlit("POST /data HTTP/1.1\r\n");
    reveal_strlit("Content-Type: application/json\r\n");
    reveal_strlit("Content-Length: ");
    reveal_strlit("\r\n\r\n");
    lemma_temps_len(rs);
    lemma_pow10_values();
    lemma_dec_len(spec_payload(rs).len(), 3);
}

} // verus!
