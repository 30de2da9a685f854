//! Header serialization and parsing.
//!
//! The header is the textual first section of a compressed stream: one
//! line `<symbol>: <code>` per table entry, closed by a terminator line
//! of twenty-one `=` signs.  The symbol is written in UTF-8 and may be
//! any character, `=`, `:`, a space or a newline included: a parser
//! reads the first character of a line as the symbol unconditionally,
//! and a line is only a terminator when all its twenty-two bytes match,
//! which no entry line can, since its second byte is always `:`.
//! Parsing returns the exact byte offset where the payload begins.

use vstd::prelude::*;
use vstd::utf8::valid_first_scalar;
use vstd::utf8::decode_first_scalar;
use vstd::utf8::length_of_first_scalar;
use vstd::utf8::encode_scalar;
use vstd::utf8::char_u32_cast;
use vstd::utf8::char_is_scalar;
use vstd::utf8::has_width_1_encoding;
use vstd::utf8::leading_byte_width_1;
use vstd::utf8::leading_byte_width_2;
use vstd::utf8::leading_byte_width_3;
use vstd::utf8::leading_byte_width_4;
use vstd::utf8::has_width_2_encoding;
use vstd::utf8::has_width_3_encoding;

use crate::code::CodeTable;
use crate::code::table_keys;
use crate::errors::HuffError;
use crate::unicode::decode_char_at;
use crate::unicode::encode_char_bytes;
use crate::unicode::lemma_decode_of_encode;

verus! {

/// The bytes of a code written as text: `1` for a set bit, `0` for a
/// clear one.
pub open spec fn code_ascii(code: Seq<bool>) -> Seq<u8> {
    code.map_values(|b: bool| if b { 49u8 } else { 48u8 })
}

/// The bytes of one header line: the symbol in UTF-8, a colon and a
/// space, the code as text, a newline.
pub open spec fn entry_bytes(e: (char, Seq<bool>)) -> Seq<u8> {
    encode_scalar(e.0 as u32) + seq![58u8, 32u8] + code_ascii(e.1) + seq![10u8]
}

/// The bytes of all header lines, in table order.
pub open spec fn header_entries_bytes(t: Seq<(char, Seq<bool>)>) -> Seq<u8>
    decreases t.len(),
{
    if t.len() == 0 {
        Seq::empty()
    } else {
        entry_bytes(t[0]) + header_entries_bytes(t.drop_first())
    }
}

/// The terminator line: twenty-one `=` signs and a newline.
pub open spec fn terminator_bytes() -> Seq<u8> {
    Seq::new(22, |k: int| if k < 21 { 61u8 } else { 10u8 })
}

/// The whole header: the entry lines followed by the terminator line.
pub open spec fn header_bytes(t: Seq<(char, Seq<bool>)>) -> Seq<u8> {
    header_entries_bytes(t) + terminator_bytes()
}

/// A byte that stands for a code bit.
pub open spec fn is_bit_byte(b: u8) -> bool {
    b == 48 || b == 49
}

/// The first position at or after `i` holding no code-bit byte (or the
/// end of the bytes).
pub open spec fn scan_bits(bytes: Seq<u8>, i: int) -> int
    decreases bytes.len() - i when 0 <= i <= bytes.len()
{
    if i >= bytes.len() {
        i
    } else if is_bit_byte(bytes[i]) {
        scan_bits(bytes, i + 1)
    } else {
        i
    }
}

/// The code read from the text bytes in `[i, j)`.
pub open spec fn bits_of(bytes: Seq<u8>, i: int, j: int) -> Seq<bool> {
    bytes.subrange(i, j).map_values(|b: u8| b == 49)
}

/// Where the scan for code bits stops: not before `i`, not past the end.
pub proof fn lemma_scan_bits_range(bytes: Seq<u8>, i: int)
    requires
        0 <= i <= bytes.len(),
    ensures
        i <= scan_bits(bytes, i) <= bytes.len(),
    decreases bytes.len() - i,
{
    if i < bytes.len() && is_bit_byte(bytes[i]) {
        lemma_scan_bits_range(bytes, i + 1)
    }
}

/// The scan stops at `k` exactly when everything before `k` is a bit
/// byte and `k` is the end or holds none.
pub proof fn lemma_scan_bits_exact(bytes: Seq<u8>, i: int, k: int)
    requires
        0 <= i <= k <= bytes.len(),
        forall|m: int| i <= m < k ==> is_bit_byte(#[trigger] bytes[m]),
        k == bytes.len() || !is_bit_byte(bytes[k]),
    ensures
        scan_bits(bytes, i) == k,
    decreases k - i,
{
    if i < k {
        assert(is_bit_byte(bytes[i]));
        lemma_scan_bits_exact(bytes, i + 1, k);
    }
}

#[via_fn]
proof fn spec_parse_entries_dec(bytes: Seq<u8>, i: int, acc: Seq<(char, Seq<bool>)>) {
    if !(i + 22 <= bytes.len() && bytes.subrange(i, i + 22) == terminator_bytes())
        && valid_first_scalar(bytes.skip(i)) {
        let j = i + length_of_first_scalar(bytes.skip(i));
        if !(j + 2 > bytes.len() || bytes[j] != 58 || bytes[j + 1] != 32) {
            lemma_scan_bits_range(bytes, j + 2);
        }
    }
}

/// What parsing the header yields, from position `i` with the entries
/// read so far: the full entry list and the byte offset just past the
/// terminator, or nothing if the header is malformed.
pub open spec fn spec_parse_entries(
    bytes: Seq<u8>,
    i: int,
    acc: Seq<(char, Seq<bool>)>,
) -> Option<(Seq<(char, Seq<bool>)>, int)>
    decreases bytes.len() - i when 0 <= i <= bytes.len() via spec_parse_entries_dec
{
    if i + 22 <= bytes.len() && bytes.subrange(i, i + 22) == terminator_bytes() {
        Some((acc, i + 22))
    } else if !valid_first_scalar(bytes.skip(i)) {
        None
    } else {
        let sym = decode_first_scalar(bytes.skip(i)) as char;
        let j = i + length_of_first_scalar(bytes.skip(i));
        if j + 2 > bytes.len() || bytes[j] != 58 || bytes[j + 1] != 32 {
            None
        } else {
            let k = scan_bits(bytes, j + 2);
            if k >= bytes.len() || bytes[k] != 10 || k == j + 2 {
                None
            } else if table_keys(acc).contains(sym) {
                None
            } else {
                spec_parse_entries(bytes, k + 1, acc.push((sym, bits_of(bytes, j + 2, k))))
            }
        }
    }
}

/// What parsing a whole byte string yields: the table and the payload
/// offset, or nothing.  A header with no entry at all is not rejected
/// here; the parser turns it into an error.
pub open spec fn spec_parse(bytes: Seq<u8>) -> Option<(Seq<(char, Seq<bool>)>, int)> {
    spec_parse_entries(bytes, 0, Seq::empty())
}

/// Appending one entry to a table appends its line to the header bytes.
proof fn lemma_header_entries_push(t: Seq<(char, Seq<bool>)>, e: (char, Seq<bool>))
    ensures
        header_entries_bytes(t.push(e)) == header_entries_bytes(t) + entry_bytes(e),
    decreases t.len(),
{
    if t.len() == 0 {
        assert(t.push(e)[0] == e);
        assert(t.push(e).drop_first() =~= Seq::<(char, Seq<bool>)>::empty());
        assert(header_entries_bytes(Seq::<(char, Seq<bool>)>::empty()) == Seq::<u8>::empty());
        assert(header_entries_bytes(t.push(e)) == entry_bytes(e) + header_entries_bytes(
            t.push(e).drop_first(),
        ));
        assert(header_entries_bytes(t.push(e)) =~= entry_bytes(e));
        assert(header_entries_bytes(t) + entry_bytes(e) =~= entry_bytes(e));
    } else {
        assert(t.push(e)[0] == t[0]);
        assert(t.push(e).drop_first() =~= t.drop_first().push(e));
        lemma_header_entries_push(t.drop_first(), e);
        assert(header_entries_bytes(t.push(e)) =~= header_entries_bytes(t) + entry_bytes(e));
    }
}

proof fn lemma_multibyte_lead_ne(x: u8)
    by (bit_vector)
    ensures
        (0xC0u8 | x) != 61u8,
        (0xE0u8 | x) != 61u8,
        (0xF0u8 | x) != 61u8,
{
}

/// Parsing from a position where one serialized entry stands, followed
/// by more header text, reads exactly that entry and moves past it.
#[verifier::rlimit(100)]
proof fn lemma_parse_entries_append(
    bytes: Seq<u8>,
    i: int,
    acc: Seq<(char, Seq<bool>)>,
    s: Seq<(char, Seq<bool>)>,
    rest: Seq<u8>,
)
    requires
        0 <= i <= bytes.len(),
        bytes.skip(i) == header_entries_bytes(s) + terminator_bytes() + rest,
        table_keys(acc + s).no_duplicates(),
        forall|m: int| 0 <= m < s.len() ==> (#[trigger] s[m]).1.len() > 0,
    ensures
        spec_parse_entries(bytes, i, acc) == Some(
            (acc + s, i + header_entries_bytes(s).len() + 22),
        ),
    decreases s.len(),
{
    let tail = bytes.skip(i);
    if s.len() == 0 {
        assert(header_entries_bytes(s) == Seq::<u8>::empty());
        assert(tail =~= terminator_bytes() + rest);
        assert(tail.len() == 22 + rest.len());
        assert forall|m: int| 0 <= m < 22 implies bytes.subrange(i, i + 22)[m]
            == terminator_bytes()[m] by {
            assert(bytes.subrange(i, i + 22)[m] == bytes[i + m]);
            assert(bytes[i + m] == tail[m]);
            assert(tail[m] == terminator_bytes()[m]);
        }
        assert(bytes.subrange(i, i + 22) =~= terminator_bytes());
        assert(acc + s =~= acc);
    } else {
        let e = s[0];
        let s1 = s.drop_first();
        let enc = encode_scalar(e.0 as u32);
        let entry = entry_bytes(e);
        let after = header_entries_bytes(s1) + terminator_bytes() + rest;
        assert(header_entries_bytes(s) == entry + header_entries_bytes(s1));
        assert(tail =~= entry + after);
        let mid = seq![58u8, 32u8] + code_ascii(e.1) + seq![10u8];
        assert(entry =~= enc + mid);
        assert(tail =~= enc + (mid + after));
        char_is_scalar(e.0);
        let u = e.0 as u32;
        assert(enc.len() >= 1);
        assert(tail[0] == enc[0]);
        assert(bytes[i] == tail[0]);
        // an entry line can never pass for the terminator line
        assert(!(i + 22 <= bytes.len() && bytes.subrange(i, i + 22) == terminator_bytes())) by {
            if i + 22 <= bytes.len() && bytes.subrange(i, i + 22) == terminator_bytes() {
                assert(bytes.subrange(i, i + 22)[0] == bytes[i]);
                assert(bytes.subrange(i, i + 22)[1] == bytes[i + 1]);
                assert(bytes[i] == 61u8);
                assert(bytes[i + 1] == 61u8);
                if has_width_1_encoding(u) {
                    assert(enc =~= seq![leading_byte_width_1(u)]);
                    assert(enc.len() == 1);
                    assert(tail[1int] == mid[0]);
                    assert(bytes[i + 1] == 58u8);
                } else if has_width_2_encoding(u) {
                    assert(enc[0] == leading_byte_width_2(u));
                    lemma_multibyte_lead_ne(((u >> 6) & 0x1F) as u8);
                } else if has_width_3_encoding(u) {
                    assert(enc[0] == leading_byte_width_3(u));
                    lemma_multibyte_lead_ne(((u >> 12) & 0x0F) as u8);
                } else {
                    assert(enc[0] == leading_byte_width_4(u));
                    lemma_multibyte_lead_ne(((u >> 18) & 0x7) as u8);
                }
            }
        }
        // the symbol reads back as itself
        lemma_decode_of_encode(e.0, mid + after);
        assert(valid_first_scalar(tail));
        assert(decode_first_scalar(tail) == u);
        char_u32_cast(e.0, u);
        assert(decode_first_scalar(tail) as char == e.0);
        let j = i + enc.len();
        assert(length_of_first_scalar(tail) == enc.len());
        // the separator follows
        assert(tail[enc.len() as int] == mid[0]);
        assert(tail[enc.len() as int + 1] == mid[1]);
        assert(bytes[j] == 58u8);
        assert(bytes[j + 1] == 32u8);
        assert(j + 2 <= bytes.len());
        // the code bits follow, closed by the newline
        let cl = e.1.len() as int;
        assert forall|m: int| j + 2 <= m < j + 2 + cl implies is_bit_byte(
            #[trigger] bytes[m],
        ) by {
            assert(bytes[m] == tail[m - i]);
            assert(tail[m - i] == mid[m - i - enc.len()]);
            assert(mid[m - i - enc.len()] == code_ascii(e.1)[m - j - 2]);
        }
        assert(bytes[j + 2 + cl] == tail[enc.len() + 2 + cl]);
        assert(tail[enc.len() as int + 2 + cl] == mid[2 + cl]);
        assert(mid[2 + cl] == 10u8);
        lemma_scan_bits_exact(bytes, j + 2, j + 2 + cl);
        let k = j + 2 + cl;
        assert(k < bytes.len());
        assert(e.1.len() > 0);
        // the code reads back as itself
        assert(bits_of(bytes, j + 2, k) =~= e.1) by {
            assert forall|m: int| 0 <= m < cl implies bits_of(bytes, j + 2, k)[m] == e.1[m] by {
                assert(bytes.subrange(j + 2, k)[m] == bytes[j + 2 + m]);
                assert(bytes[j + 2 + m] == tail[enc.len() as int + 2 + m]);
                assert(tail[enc.len() as int + 2 + m] == mid[2 + m]);
                assert(mid[2 + m] == code_ascii(e.1)[m]);
            }
        }
        // the symbol is new
        assert(table_keys(acc + s) =~= table_keys(acc) + table_keys(s));
        assert(!table_keys(acc).contains(e.0)) by {
            if table_keys(acc).contains(e.0) {
                let m = choose|m: int|
                    0 <= m < table_keys(acc).len() && table_keys(acc)[m] == e.0;
                assert(table_keys(acc + s)[m] == e.0);
                assert(table_keys(s)[0] == e.0);
                assert(table_keys(acc + s)[acc.len() as int] == e.0);
            }
        }
        // step to the next line
        assert(bytes.skip(k + 1) =~= after) by {
            assert forall|m: int| 0 <= m < bytes.len() - k - 1 implies bytes.skip(k + 1)[m]
                == after[m] by {
                assert(bytes.skip(k + 1)[m] == bytes[k + 1 + m]);
                assert(bytes[k + 1 + m] == tail[k + 1 + m - i]);
                assert(tail[k + 1 + m - i] == after[k + 1 + m - i - entry.len()]);
            }
        }
        assert(acc.push(e) + s1 =~= acc + s);
        lemma_parse_entries_append(bytes, k + 1, acc.push(e), s1, rest);
        assert(spec_parse_entries(bytes, i, acc) == spec_parse_entries(
            bytes,
            k + 1,
            acc.push((decode_first_scalar(tail) as char, bits_of(bytes, j + 2, k))),
        ));
        assert(acc.push((decode_first_scalar(tail) as char, bits_of(bytes, j + 2, k))) =~= acc.push(
            e,
        ));
    }
}

/// The bytes the header writer emits parse back to the very table they
/// were written from, and the offset found is exactly the header's
/// length, whatever bytes follow the header.
pub proof fn lemma_parse_of_serialized(t: Seq<(char, Seq<bool>)>, rest: Seq<u8>)
    requires
        table_keys(t).no_duplicates(),
        forall|m: int| 0 <= m < t.len() ==> (#[trigger] t[m]).1.len() > 0,
    ensures
        spec_parse(header_bytes(t) + rest) == Some((t, header_bytes(t).len() as int)),
{
    let bytes = header_bytes(t) + rest;
    assert(bytes.skip(0) =~= header_entries_bytes(t) + terminator_bytes() + rest);
    assert(Seq::<(char, Seq<bool>)>::empty() + t =~= t);
    lemma_parse_entries_append(bytes, 0, Seq::empty(), t, rest);
    assert(Seq::<(char, Seq<bool>)>::empty() + t == t);
}

/// Writes the header of a code table: one line per entry, in table
/// order, then the terminator line.
pub fn serialize_header(t: &CodeTable) -> (out: Vec<u8>)
    ensures
        out@ == header_bytes(t.table()),
{
    let mut out: Vec<u8> = Vec::new();
    proof {
        assert(t.table().take(0) =~= Seq::<(char, Seq<bool>)>::empty());
        assert(out@ =~= header_entries_bytes(t.table().take(0)));
    }
    let n = t.entries.len();
    let mut i: usize = 0;
    while i < n
        invariant
            0 <= i <= n,
            n == t.entries@.len(),
            out@ == header_entries_bytes(t.table().take(i as int)),
        decreases n - i,
    {
        let ghost e = t.table()[i as int];
        let ghost out0 = out@;
        let sym = t.entries[i].0;
        encode_char_bytes(sym, &mut out);
        out.push(58);
        out.push(32);
        let ghost mid0 = out@;
        let nb = t.entries[i].1.len();
        let mut bi: usize = 0;
        while bi < nb
            invariant
                0 <= bi <= nb,
                i < t.entries@.len(),
                nb == t.entries@[i as int].1@.len(),
                out@ == mid0 + code_ascii(t.entries@[i as int].1@.take(bi as int)),
            decreases nb - bi,
        {
            let bit = t.entries[i].1[bi];
            let ghost outb = out@;
            if bit {
                out.push(49);
            } else {
                out.push(48);
            }
            proof {
                assert(t.entries@[i as int].1@.take(bi + 1) =~= t.entries@[i as int].1@.take(
                    bi as int,
                ).push(bit));
                assert(code_ascii(t.entries@[i as int].1@.take(bi + 1)) =~= code_ascii(
                    t.entries@[i as int].1@.take(bi as int),
                ).push(if bit { 49u8 } else { 48u8 }));
                assert(out@ =~= mid0 + code_ascii(t.entries@[i as int].1@.take(bi + 1)));
            }
            bi += 1;
        }
        out.push(10);
        proof {
            assert(t.entries@[i as int].1@.take(nb as int) =~= t.entries@[i as int].1@);
            assert(e == (t.entries@[i as int].0, t.entries@[i as int].1@));
            assert(out@ =~= out0 + entry_bytes(e));
            assert(t.table().take(i + 1) =~= t.table().take(i as int).push(e));
            lemma_header_entries_push(t.table().take(i as int), e);
            assert(out@ =~= header_entries_bytes(t.table().take(i + 1)));
        }
        i += 1;
    }
    proof {
        assert(t.table().take(n as int) =~= t.table());
    }
    let ghost hdr0 = out@;
    let mut ti: usize = 0;
    while ti < 21
        invariant
            0 <= ti <= 21,
            out@ == hdr0 + terminator_bytes().take(ti as int),
        decreases 21 - ti,
    {
        out.push(61);
        proof {
            assert(terminator_bytes().take(ti + 1) =~= terminator_bytes().take(ti as int).push(
                61u8,
            ));
        }
        ti += 1;
    }
    out.push(10);
    proof {
        assert(terminator_bytes() =~= terminator_bytes().take(21).push(10u8));
        assert(out@ =~= hdr0 + terminator_bytes());
    }
    out
}

/// Tests whether the terminator line stands at byte `i`.
fn is_terminator_at(bytes: &Vec<u8>, i: usize) -> (r: bool)
    requires
        i <= bytes@.len(),
    ensures
        r == (i + 22 <= bytes@.len() && bytes@.subrange(i as int, i as int + 22)
            == terminator_bytes()),
{
    let n = bytes.len();
    if n - i < 22 {
        return false;
    }
    let mut t: usize = 0;
    while t < 21
        invariant
            0 <= t <= 21,
            i + 22 <= bytes@.len(),
            n == bytes@.len(),
            forall|m: int| 0 <= m < t ==> #[trigger] bytes@[i + m] == 61u8,
        decreases 21 - t,
    {
        if bytes[i + t] != 61 {
            proof {
                assert(bytes@.subrange(i as int, i as int + 22)[t as int] == bytes@[i + t]);
                assert(terminator_bytes()[t as int] == 61u8);
            }
            return false;
        }
        t += 1;
    }
    if bytes[i + 21] != 10 {
        proof {
            assert(bytes@.subrange(i as int, i as int + 22)[21] == bytes@[i + 21]);
            assert(terminator_bytes()[21] == 10u8);
        }
        return false;
    }
    proof {
        assert forall|m: int| 0 <= m < 22 implies bytes@.subrange(i as int, i as int + 22)[m]
            == terminator_bytes()[m] by {
            assert(bytes@.subrange(i as int, i as int + 22)[m] == bytes@[i + m]);
            if m < 21 {
                assert(bytes@[i + m] == 61u8);
            } else {
                assert(bytes@[i + 21] == 10u8);
            }
        }
        assert(bytes@.subrange(i as int, i as int + 22) =~= terminator_bytes());
    }
    true
}

/// Looks a symbol up among the entries read so far.
fn contains_symbol(entries: &Vec<(char, Vec<bool>)>, sym: char) -> (r: bool)
    ensures
        r == table_keys(entries@.map_values(|e: (char, Vec<bool>)| (e.0, e.1@))).contains(sym),
{
    let ghost keys = table_keys(entries@.map_values(|e: (char, Vec<bool>)| (e.0, e.1@)));
    let n = entries.len();
    let mut i: usize = 0;
    while i < n
        invariant
            0 <= i <= n,
            n == entries@.len(),
            keys == table_keys(entries@.map_values(|e: (char, Vec<bool>)| (e.0, e.1@))),
            forall|m: int| 0 <= m < i ==> keys[m] != sym,
        decreases n - i,
    {
        if entries[i].0 == sym {
            proof {
                assert(keys[i as int] == sym);
            }
            return true;
        }
        proof {
            assert(keys[i as int] == entries@[i as int].0);
        }
        i += 1;
    }
    proof {
        if keys.contains(sym) {
            let m = choose|m: int| 0 <= m < keys.len() && keys[m] == sym;
        }
    }
    false
}

/// Parses the header of a compressed stream: the entries, in file order,
/// and the byte offset where the payload begins.  Fails with
/// `MalformedHeader` exactly when the text up to the terminator does not
/// parse, the terminator is missing, or the header holds no entry.
pub fn parse_header(bytes: &Vec<u8>) -> (r: Result<(CodeTable, usize), HuffError>)
    ensures
        match r {
            Ok(p) => {
                &&& spec_parse(bytes@) == Some((p.0.table(), p.1 as int))
                &&& p.0.table().len() > 0
                &&& table_keys(p.0.table()).no_duplicates()
                &&& forall|m: int| 0 <= m < p.0.table().len() ==> (#[trigger] p.0.table()[m]).1.len() > 0
                &&& p.1 <= bytes@.len()
            },
            Err(e) => {
                &&& e == HuffError::MalformedHeader
                &&& match spec_parse(bytes@) {
                    Some(q) => q.0.len() == 0,
                    None => true,
                }
            },
        },
{
    let n = bytes.len();
    let mut entries: Vec<(char, Vec<bool>)> = Vec::new();
    let mut i: usize = 0;
    proof {
        assert(entries@.map_values(|e: (char, Vec<bool>)| (e.0, e.1@)) =~= Seq::<
            (char, Seq<bool>),
        >::empty());
    }
    loop
        invariant
            0 <= i <= n,
            n == bytes@.len(),
            spec_parse(bytes@) == spec_parse_entries(
                bytes@,
                i as int,
                entries@.map_values(|e: (char, Vec<bool>)| (e.0, e.1@)),
            ),
            table_keys(entries@.map_values(|e: (char, Vec<bool>)| (e.0, e.1@))).no_duplicates(),
            forall|m: int|
                0 <= m < entries@.len() ==> (#[trigger] entries@[m]).1@.len() > 0,
        decreases n - i,
    {
        let ghost acc = entries@.map_values(|e: (char, Vec<bool>)| (e.0, e.1@));
        if is_terminator_at(bytes, i) {
            if entries.len() == 0 {
                proof {
                    assert(spec_parse_entries(bytes@, i as int, acc) == Some((acc, i + 22)));
                    assert(acc.len() == 0);
                }
                return Err(HuffError::MalformedHeader);
            }
            let t = CodeTable { entries };
            proof {
                assert(spec_parse_entries(bytes@, i as int, acc) == Some((acc, i + 22)));
                assert(t.table() == acc);
                assert forall|m: int| 0 <= m < t.table().len() implies (
                #[trigger] t.table()[m]).1.len() > 0 by {
                    assert(t.table()[m] == (t.entries@[m].0, t.entries@[m].1@));
                }
            }
            return Ok((t, i + 22));
        }
        let (sym, clen) = match decode_char_at(bytes, i) {
            Some(p) => p,
            None => {
                proof {
                    assert(spec_parse_entries(bytes@, i as int, acc) is None);
                }
                return Err(HuffError::MalformedHeader);
            },
        };
        proof {
            char_u32_cast(sym, decode_first_scalar(bytes@.skip(i as int)));
        }
        let j = i + clen;
        if n - j < 2 {
            proof {
                assert(j + 2 > bytes@.len());
                assert(spec_parse_entries(bytes@, i as int, acc) is None);
            }
            return Err(HuffError::MalformedHeader);
        }
        if bytes[j] != 58 || bytes[j + 1] != 32 {
            proof {
                assert(spec_parse_entries(bytes@, i as int, acc) is None);
            }
            return Err(HuffError::MalformedHeader);
        }
        let mut k = j + 2;
        let mut code: Vec<bool> = Vec::new();
        proof {
            assert(code@ =~= bits_of(bytes@, j + 2, j + 2));
        }
        while k < n && (bytes[k] == 48 || bytes[k] == 49)
            invariant
                j + 2 <= k <= n,
                n == bytes@.len(),
                forall|m: int| j + 2 <= m < k ==> is_bit_byte(#[trigger] bytes@[m]),
                code@ == bits_of(bytes@, j + 2, k as int),
                code@.len() == k - (j + 2),
            decreases n - k,
        {
            code.push(bytes[k] == 49);
            proof {
                assert(bytes@.subrange(j + 2, k + 1) =~= bytes@.subrange(j + 2, k as int).push(
                    bytes@[k as int],
                ));
                assert(code@ =~= bits_of(bytes@, j + 2, k + 1));
            }
            k += 1;
        }
        proof {
            lemma_scan_bits_exact(bytes@, j + 2, k as int);
        }
        if k >= n || bytes[k] != 10 || k == j + 2 {
            proof {
                assert(spec_parse_entries(bytes@, i as int, acc) is None);
            }
            return Err(HuffError::MalformedHeader);
        }
        if contains_symbol(&entries, sym) {
            proof {
                assert(spec_parse_entries(bytes@, i as int, acc) is None);
            }
            return Err(HuffError::MalformedHeader);
        }
        let ghost acc0 = acc;
        let ghost keys0 = table_keys(acc);
        entries.push((sym, code));
        proof {
            let acc1 = entries@.map_values(|e: (char, Vec<bool>)| (e.0, e.1@));
            assert(acc1 =~= acc0.push((sym, bits_of(bytes@, j + 2, k as int))));
            assert(spec_parse_entries(bytes@, i as int, acc0) == spec_parse_entries(
                bytes@,
                k + 1,
                acc1,
            ));
            assert(table_keys(acc1) =~= keys0.push(sym));
            assert(table_keys(acc1).no_duplicates()) by {
                assert(forall|m: int|
                    0 <= m < keys0.len() ==> #[trigger] keys0.push(sym)[m] == keys0[m]);
            }
        }
        i = k + 1;
    }
}

} // verus!
