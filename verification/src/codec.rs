//! The codec: symbol encoding, greedy decoding, and the full
//! compression and decompression pipelines.
//!
//! Encoding concatenates the code of every input symbol.  Decoding walks
//! the payload bits, growing a candidate bit string until it equals some
//! code, and emits that code's symbol; because the table is prefix-free
//! the first match is the only possible one, which is proved here and is
//! what makes the round trip exact.

use vstd::prelude::*;

use crate::bits::le64_value;
use crate::bits::lemma_le64_roundtrip;
use crate::bits::pack_bits;
use crate::bits::packed_len;
use crate::bits::payload_bit;
use crate::bits::unpack_bits;
use crate::code::CodeTable;
use crate::code::derive_codes;
use crate::code::lemma_single_symbol_one_bit;
use crate::code::table_of;
use crate::code::is_prefix;
use crate::code::prefix_free;
use crate::code::table_keys;
use crate::code::wf_table;
use crate::errors::HuffError;
use crate::freq::FreqTable;
use crate::freq::count_frequencies;
use crate::freq::count_of;
use crate::freq::distinct_symbols;
use crate::freq::lemma_distinct_symbols;
use crate::header::parse_header;
use crate::header::lemma_parse_of_serialized;
use crate::header::serialize_header;
use crate::header::spec_parse;
use crate::tree::build_huffman_tree;
use crate::tree::spec_build;
use vstd::arithmetic::div_mod::lemma_fundamental_div_mod;

verus! {

/// The code of the first entry for symbol `c`, if any.
pub open spec fn code_for(t: Seq<(char, Seq<bool>)>, c: char) -> Option<Seq<bool>>
    decreases t.len(),
{
    if t.len() == 0 {
        None
    } else if t[0].0 == c {
        Some(t[0].1)
    } else {
        code_for(t.drop_first(), c)
    }
}

/// The symbol of the first entry whose code is exactly `code`, if any.
pub open spec fn sym_for(t: Seq<(char, Seq<bool>)>, code: Seq<bool>) -> Option<char>
    decreases t.len(),
{
    if t.len() == 0 {
        None
    } else if t[0].1 == code {
        Some(t[0].0)
    } else {
        sym_for(t.drop_first(), code)
    }
}

/// The concatenation of the codes of all symbols, or the first symbol
/// that has no code.
pub open spec fn spec_encode(syms: Seq<char>, t: Seq<(char, Seq<bool>)>) -> Result<
    Seq<bool>,
    char,
>
    decreases syms.len(),
{
    if syms.len() == 0 {
        Ok(Seq::empty())
    } else {
        match code_for(t, syms[0]) {
            Option::None => Err(syms[0]),
            Option::Some(code) => match spec_encode(syms.drop_first(), t) {
                Ok(rest) => Ok(code + rest),
                Err(c) => Err(c),
            },
        }
    }
}

/// What greedy decoding yields from bit `i` on, with the candidate bits
/// and symbols gathered so far: the symbols, or nothing when bits are
/// left over that match no code.
pub open spec fn spec_decode_from(
    t: Seq<(char, Seq<bool>)>,
    bits: Seq<bool>,
    i: int,
    cand: Seq<bool>,
    out: Seq<char>,
) -> Option<Seq<char>>
    decreases bits.len() - i when 0 <= i <= bits.len()
{
    if i >= bits.len() {
        if cand.len() == 0 {
            Some(out)
        } else {
            None
        }
    } else {
        let cand1 = cand.push(bits[i]);
        match sym_for(t, cand1) {
            Option::Some(c) => spec_decode_from(t, bits, i + 1, Seq::empty(), out.push(c)),
            Option::None => spec_decode_from(t, bits, i + 1, cand1, out),
        }
    }
}

/// What greedy decoding of a whole bit string yields.
pub open spec fn spec_decode(t: Seq<(char, Seq<bool>)>, bits: Seq<bool>) -> Option<Seq<char>> {
    spec_decode_from(t, bits, 0, Seq::empty(), Seq::empty())
}

/// A symbol has a code exactly when it is among the table's keys.
pub proof fn lemma_code_for_contains(t: Seq<(char, Seq<bool>)>, c: char)
    ensures
        code_for(t, c) is Some <==> table_keys(t).contains(c),
    decreases t.len(),
{
    if t.len() > 0 {
        lemma_code_for_contains(t.drop_first(), c);
        assert(table_keys(t.drop_first()) =~= table_keys(t).drop_first());
        if t[0].0 == c {
            assert(table_keys(t)[0] == c);
        } else {
            if table_keys(t).contains(c) {
                let m = choose|m: int|
                    0 <= m < table_keys(t).len() && table_keys(t)[m] == c;
                assert(m > 0);
                assert(table_keys(t).drop_first()[m - 1] == c);
            }
            if table_keys(t).drop_first().contains(c) {
                let m = choose|m: int|
                    0 <= m < table_keys(t).drop_first().len() && table_keys(t).drop_first()[m]
                        == c;
                assert(table_keys(t)[m + 1] == c);
            }
        }
    }
}

/// The entry the code lookup finds.
proof fn lemma_code_for_index(t: Seq<(char, Seq<bool>)>, c: char) -> (idx: int)
    requires
        code_for(t, c) is Some,
    ensures
        0 <= idx < t.len(),
        t[idx].0 == c,
        t[idx].1 == code_for(t, c).unwrap(),
    decreases t.len(),
{
    if t[0].0 == c {
        0
    } else {
        let sub = lemma_code_for_index(t.drop_first(), c);
        sub + 1
    }
}

/// A list stays prefix-free when its first entry is dropped.
proof fn lemma_prefix_free_drop_first(t: Seq<(char, Seq<bool>)>)
    requires
        prefix_free(t),
        t.len() > 0,
    ensures
        prefix_free(t.drop_first()),
{
    let s = t.drop_first();
    assert forall|a: int, b: int| 0 <= a < s.len() && 0 <= b < s.len() && a != b implies !is_prefix(
        (#[trigger] s[a]).1,
        (#[trigger] s[b]).1,
    ) by {
        assert(s[a] == t[a + 1]);
        assert(s[b] == t[b + 1]);
    }
}

/// In a prefix-free list, looking an entry's own code up finds exactly
/// that entry's symbol.
proof fn lemma_sym_for_entry(t: Seq<(char, Seq<bool>)>, idx: int)
    requires
        prefix_free(t),
        0 <= idx < t.len(),
    ensures
        sym_for(t, t[idx].1) == Some(t[idx].0),
    decreases t.len(),
{
    if t[0].1 == t[idx].1 {
        if idx != 0 {
            assert(is_prefix(t[0].1, t[idx].1)) by {
                assert(t[idx].1.take(t[0].1.len() as int) =~= t[0].1);
            }
            assert(false);
        }
    } else {
        assert(idx != 0);
        lemma_prefix_free_drop_first(t);
        lemma_sym_for_entry(t.drop_first(), idx - 1);
        assert(t.drop_first()[idx - 1] == t[idx]);
    }
}

/// In a prefix-free list, a strict prefix of some entry's code matches
/// no entry at all.
proof fn lemma_sym_for_strict_prefix(t: Seq<(char, Seq<bool>)>, idx: int, p: Seq<bool>)
    requires
        prefix_free(t),
        0 <= idx < t.len(),
        is_prefix(p, t[idx].1),
        p.len() < t[idx].1.len(),
    ensures
        sym_for(t, p) is None,
    decreases t.len(),
{
    if t[0].1 == p {
        if idx == 0 {
            assert(false);
        } else {
            assert(is_prefix(t[0].1, t[idx].1));
            assert(false);
        }
    } else {
        if t.len() > 1 {
            lemma_prefix_free_drop_first(t);
            if idx == 0 {
                // the prefixed code is the first entry's own: no later
                // entry can match `p` without prefixing that code
                lemma_sym_for_none_of_prefix(t.drop_first(), p, t[0].1);
            } else {
                lemma_sym_for_strict_prefix(t.drop_first(), idx - 1, p);
                assert(t.drop_first()[idx - 1] == t[idx]);
            }
        }
    }
}

/// In a list where no code is a prefix of `c` or prefixed by it except
/// `c` itself, a strict prefix `p` of `c` matches no entry.
proof fn lemma_sym_for_none_of_prefix(t: Seq<(char, Seq<bool>)>, p: Seq<bool>, c: Seq<bool>)
    requires
        is_prefix(p, c),
        p.len() < c.len(),
        forall|b: int| 0 <= b < t.len() ==> !is_prefix((#[trigger] t[b]).1, c),
    ensures
        sym_for(t, p) is None,
    decreases t.len(),
{
    if t.len() > 0 {
        if t[0].1 == p {
            assert(is_prefix(t[0].1, c)) by {
                assert(c.take(p.len() as int) =~= p);
            }
            assert(false);
        }
        assert(forall|b: int|
            0 <= b < t.drop_first().len() ==> (#[trigger] t.drop_first()[b]) == t[b + 1]);
        lemma_sym_for_none_of_prefix(t.drop_first(), p, c);
    }
}

/// Greedy decoding swallows one whole code: starting inside the code of
/// entry `idx`, it reads the remaining code bits, emits that entry's
/// symbol, and stands at the next code with an empty candidate.
proof fn lemma_decode_one_code(
    t: Seq<(char, Seq<bool>)>,
    bits: Seq<bool>,
    i: int,
    cand: Seq<bool>,
    out: Seq<char>,
    idx: int,
)
    requires
        prefix_free(t),
        0 <= idx < t.len(),
        is_prefix(cand, t[idx].1),
        cand.len() < t[idx].1.len(),
        0 <= i <= bits.len(),
        i + t[idx].1.len() - cand.len() <= bits.len(),
        forall|m: int|
            0 <= m < t[idx].1.len() - cand.len() ==> #[trigger] bits[i + m] == t[idx].1[cand.len()
                + m],
    ensures
        spec_decode_from(t, bits, i, cand, out) == spec_decode_from(
            t,
            bits,
            i + t[idx].1.len() - cand.len(),
            Seq::empty(),
            out.push(t[idx].0),
        ),
    decreases t[idx].1.len() - cand.len(),
{
    let c = t[idx].1;
    let cand1 = cand.push(bits[i]);
    assert(bits[i + 0] == c[cand.len() as int + 0]);
    assert(bits[i] == c[cand.len() as int]);
    assert(is_prefix(cand1, c)) by {
        assert(c.take(cand1.len() as int) =~= cand1) by {
            assert(c.take(cand.len() as int) == cand);
            assert forall|m: int| 0 <= m < cand1.len() implies c.take(cand1.len() as int)[m]
                == cand1[m] by {
                if m < cand.len() {
                    assert(c.take(cand.len() as int)[m] == c[m]);
                }
            }
        }
    }
    if cand1.len() == c.len() {
        assert(cand1 =~= c);
        lemma_sym_for_entry(t, idx);
        assert(sym_for(t, cand1) == Some(t[idx].0));
    } else {
        lemma_sym_for_strict_prefix(t, idx, cand1);
        assert forall|m: int| 0 <= m < c.len() - cand1.len() implies #[trigger] bits[i + 1 + m]
            == c[cand1.len() + m] by {
            assert(bits[i + (m + 1)] == c[cand.len() as int + (m + 1)]);
        }
        lemma_decode_one_code(t, bits, i + 1, cand1, out, idx);
    }
}

/// Greedy decoding of an exact code concatenation gives the encoded
/// symbols back.
proof fn lemma_decode_of_encode_from(
    t: Seq<(char, Seq<bool>)>,
    syms: Seq<char>,
    bits: Seq<bool>,
    i: int,
    out: Seq<char>,
)
    requires
        wf_table(t),
        0 <= i <= bits.len(),
        spec_encode(syms, t) == Ok::<Seq<bool>, char>(bits.skip(i)),
    ensures
        spec_decode_from(t, bits, i, Seq::empty(), out) == Some(out + syms),
    decreases syms.len(),
{
    if syms.len() == 0 {
        assert(bits.skip(i) =~= Seq::<bool>::empty());
        assert(i == bits.len());
        assert(out + syms =~= out);
    } else {
        let code = code_for(t, syms[0]).unwrap();
        let rest = spec_encode(syms.drop_first(), t).unwrap();
        assert(bits.skip(i) == code + rest);
        let idx = lemma_code_for_index(t, syms[0]);
        assert(t[idx].1 == code);
        assert(code.len() > 0);
        assert forall|m: int| 0 <= m < code.len() implies bits[i + m] == code[m] by {
            assert(bits.skip(i)[m] == bits[i + m]);
            assert((code + rest)[m] == code[m]);
        }
        assert(is_prefix(Seq::<bool>::empty(), code)) by {
            assert(code.take(0) =~= Seq::<bool>::empty());
        }
        assert(i + code.len() <= bits.len()) by {
            assert(bits.skip(i).len() == code.len() + rest.len());
        }
        lemma_decode_one_code(t, bits, i, Seq::empty(), out, idx);
        assert(bits.skip(i + code.len()) =~= rest) by {
            assert forall|m: int| 0 <= m < rest.len() implies bits.skip(i + code.len())[m]
                == rest[m] by {
                assert(bits.skip(i + code.len())[m] == bits[i + code.len() + m]);
                assert(bits[i + code.len() + m] == bits.skip(i)[code.len() + m]);
                assert((code + rest)[code.len() + m] == rest[m]);
            }
        }
        lemma_decode_of_encode_from(t, syms.drop_first(), bits, i + code.len(), out.push(
            syms[0],
        ));
        assert(out.push(syms[0]) + syms.drop_first() =~= out + syms);
        assert(t[idx].0 == syms[0]);
    }
}

/// The prefix-code round trip: greedy decoding undoes encoding, for any
/// symbol sequence the table covers.
pub proof fn lemma_greedy_round_trip(
    t: Seq<(char, Seq<bool>)>,
    syms: Seq<char>,
    bits: Seq<bool>,
)
    requires
        wf_table(t),
        spec_encode(syms, t) == Ok::<Seq<bool>, char>(bits),
    ensures
        spec_decode(t, bits) == Some(syms),
{
    assert(bits.skip(0) =~= bits);
    lemma_decode_of_encode_from(t, syms, bits, 0, Seq::empty());
    assert(Seq::<char>::empty() + syms =~= syms);
}

/// A table that covers every symbol encodes every input.
pub proof fn lemma_encode_covered(syms: Seq<char>, t: Seq<(char, Seq<bool>)>)
    requires
        forall|m: int| 0 <= m < syms.len() ==> table_keys(t).contains(#[trigger] syms[m]),
    ensures
        spec_encode(syms, t) is Ok,
    decreases syms.len(),
{
    if syms.len() > 0 {
        lemma_code_for_contains(t, syms[0]);
        assert(forall|m: int|
            0 <= m < syms.drop_first().len() ==> table_keys(t).contains(
                #[trigger] syms.drop_first()[m],
            ));
        lemma_encode_covered(syms.drop_first(), t);
    }
}

/// Encoding a non-empty input through a table of non-empty codes yields
/// at least one bit.
proof fn lemma_encode_nonempty(syms: Seq<char>, t: Seq<(char, Seq<bool>)>, bits: Seq<bool>)
    requires
        syms.len() > 0,
        forall|m: int| 0 <= m < t.len() ==> (#[trigger] t[m]).1.len() > 0,
        spec_encode(syms, t) == Ok::<Seq<bool>, char>(bits),
    ensures
        bits.len() > 0,
{
    let idx = lemma_code_for_index(t, syms[0]);
}

/// The total encoded bit length of an input under a table: the sum,
/// over the table's entries, of the symbol's occurrence count times its
/// code length.
pub open spec fn encoded_cost(t: Seq<(char, Seq<bool>)>, input: Seq<char>) -> int
    decreases t.len(),
{
    if t.len() == 0 {
        0
    } else {
        count_of(input, t[0].0) * t[0].1.len() + encoded_cost(t.drop_first(), input)
    }
}

proof fn lemma_cost_of_empty(t: Seq<(char, Seq<bool>)>)
    ensures
        encoded_cost(t, Seq::empty()) == 0,
    decreases t.len(),
{
    if t.len() > 0 {
        assert(count_of(Seq::<char>::empty(), t[0].0) == 0);
        lemma_cost_of_empty(t.drop_first());
        assert(encoded_cost(t, Seq::empty()) == count_of(Seq::<char>::empty(), t[0].0)
            * t[0].1.len() + encoded_cost(t.drop_first(), Seq::empty()));
        assert(count_of(Seq::<char>::empty(), t[0].0) * t[0].1.len() == 0);
    }
}

proof fn lemma_cost_push_absent(t: Seq<(char, Seq<bool>)>, s: Seq<char>, c: char)
    requires
        !table_keys(t).contains(c),
    ensures
        encoded_cost(t, s.push(c)) == encoded_cost(t, s),
    decreases t.len(),
{
    if t.len() > 0 {
        assert(table_keys(t)[0] == t[0].0);
        assert(t[0].0 != c);
        assert(s.push(c).drop_last() =~= s);
        assert(count_of(s.push(c), t[0].0) == count_of(s, t[0].0));
        assert forall|m: int| 0 <= m < t.drop_first().len() implies table_keys(
            t.drop_first(),
        )[m] != c by {
            assert(table_keys(t.drop_first())[m] == t.drop_first()[m].0);
            assert(t.drop_first()[m].0 == t[m + 1].0);
            assert(table_keys(t)[m + 1] == t[m + 1].0);
        }
        lemma_cost_push_absent(t.drop_first(), s, c);
    }
}

proof fn lemma_cost_push(t: Seq<(char, Seq<bool>)>, s: Seq<char>, c: char)
    requires
        table_keys(t).no_duplicates(),
        code_for(t, c) is Some,
    ensures
        encoded_cost(t, s.push(c)) == encoded_cost(t, s) + code_for(t, c).unwrap().len(),
    decreases t.len(),
{
    assert(s.push(c).drop_last() =~= s);
    if t[0].0 == c {
        assert(count_of(s.push(c), c) == count_of(s, c) + 1);
        assert(!table_keys(t.drop_first()).contains(c)) by {
            assert(table_keys(t.drop_first()) =~= table_keys(t).drop_first());
            if table_keys(t).drop_first().contains(c) {
                let m = choose|m: int|
                    0 <= m < table_keys(t).drop_first().len() && table_keys(t).drop_first()[m]
                        == c;
                assert(table_keys(t)[m + 1] == c);
                assert(table_keys(t)[0] == c);
            }
        }
        lemma_cost_push_absent(t.drop_first(), s, c);
        assert((count_of(s, c) + 1) * t[0].1.len() == count_of(s, c) * t[0].1.len()
            + t[0].1.len()) by (nonlinear_arith);
    } else {
        assert(count_of(s.push(c), t[0].0) == count_of(s, t[0].0));
        assert(table_keys(t.drop_first()) =~= table_keys(t).drop_first());
        assert(table_keys(t).drop_first().no_duplicates()) by {
            assert forall|a: int, b: int|
                0 <= a < table_keys(t).drop_first().len() && 0 <= b < table_keys(
                    t,
                ).drop_first().len() && a != b implies table_keys(t).drop_first()[a] != table_keys(
                t,
            ).drop_first()[b] by {
                assert(table_keys(t)[a + 1] == table_keys(t).drop_first()[a]);
                assert(table_keys(t)[b + 1] == table_keys(t).drop_first()[b]);
            }
        }
        lemma_cost_push(t.drop_first(), s, c);
    }
}

/// Encoding splits over concatenation: the codes of the first part come
/// first, those of the second follow.
proof fn lemma_encode_append(a: Seq<char>, b: Seq<char>, t: Seq<(char, Seq<bool>)>, bits: Seq<
    bool,
>)
    requires
        spec_encode(a + b, t) == Ok::<Seq<bool>, char>(bits),
    ensures
        spec_encode(a, t) is Ok,
        spec_encode(b, t) is Ok,
        bits == spec_encode(a, t)->Ok_0 + spec_encode(b, t)->Ok_0,
    decreases a.len(),
{
    if a.len() == 0 {
        assert(a + b =~= b);
        assert(Seq::<bool>::empty() + bits =~= bits);
    } else {
        assert((a + b)[0] == a[0]);
        assert((a + b).drop_first() =~= a.drop_first() + b);
        let code = code_for(t, a[0]).unwrap();
        let rest = spec_encode(a.drop_first() + b, t)->Ok_0;
        lemma_encode_append(a.drop_first(), b, t, rest);
        assert(bits =~= (code + spec_encode(a.drop_first(), t)->Ok_0) + spec_encode(b, t)->Ok_0);
    }
}

/// The emitted bit count is the frequency-weighted sum of the code
/// lengths: what the encoder writes for an input costs exactly the sum,
/// over the table's symbols, of occurrence count times code length.
pub proof fn lemma_encoded_length_is_cost(
    t: Seq<(char, Seq<bool>)>,
    input: Seq<char>,
    bits: Seq<bool>,
)
    requires
        table_keys(t).no_duplicates(),
        spec_encode(input, t) == Ok::<Seq<bool>, char>(bits),
    ensures
        bits.len() == encoded_cost(t, input),
    decreases input.len(),
{
    if input.len() == 0 {
        assert(spec_encode(input, t) == Ok::<Seq<bool>, char>(Seq::empty()));
        assert(bits.len() == 0);
        lemma_cost_of_empty(t);
        assert(encoded_cost(t, Seq::<char>::empty()) == 0);
        assert(input =~= Seq::<char>::empty());
    } else {
        let a = input.drop_last();
        let last = input.last();
        assert(input =~= a + seq![last]);
        lemma_encode_append(a, seq![last], t, bits);
        let x = spec_encode(a, t)->Ok_0;
        let y = spec_encode(seq![last], t)->Ok_0;
        assert(seq![last][0] == last);
        assert(seq![last].drop_first() =~= Seq::<char>::empty());
        let code = code_for(t, last).unwrap();
        assert(spec_encode(Seq::<char>::empty(), t) == Ok::<Seq<bool>, char>(Seq::empty()));
        assert(spec_encode(seq![last], t) == Ok::<Seq<bool>, char>(code + Seq::<bool>::empty()));
        assert(y =~= code);
        assert(spec_encode(a, t) == Ok::<Seq<bool>, char>(x));
        lemma_encoded_length_is_cost(t, a, x);
        assert(a.push(last) =~= input);
        lemma_cost_push(t, a, last);
        assert(bits =~= x + y);
        assert(bits.len() == x.len() + code.len());
        assert(encoded_cost(t, input) == encoded_cost(t, a) + code.len());
    }
}

proof fn lemma_encode_len_exact_one(input: Seq<char>, t: Seq<(char, Seq<bool>)>, bits: Seq<bool>)
    requires
        forall|m: int| 0 <= m < t.len() ==> (#[trigger] t[m]).1.len() == 1,
        spec_encode(input, t) == Ok::<Seq<bool>, char>(bits),
    ensures
        bits.len() == input.len(),
    decreases input.len(),
{
    if input.len() > 0 {
        let idx = lemma_code_for_index(t, input[0]);
        let rest = spec_encode(input.drop_first(), t)->Ok_0;
        lemma_encode_len_exact_one(input.drop_first(), t, rest);
    }
}

proof fn lemma_encode_len_at_least(input: Seq<char>, t: Seq<(char, Seq<bool>)>, bits: Seq<bool>)
    requires
        forall|m: int| 0 <= m < t.len() ==> (#[trigger] t[m]).1.len() >= 1,
        spec_encode(input, t) == Ok::<Seq<bool>, char>(bits),
    ensures
        bits.len() >= input.len(),
    decreases input.len(),
{
    if input.len() > 0 {
        let idx = lemma_code_for_index(t, input[0]);
        let rest = spec_encode(input.drop_first(), t)->Ok_0;
        lemma_encode_len_at_least(input.drop_first(), t, rest);
    }
}

/// One-bit codes are optimal where they arise: when a table assigns
/// every symbol a one-bit code, as happens for inputs of at most two
/// distinct symbols, no table of non-empty codes encodes the same input
/// in fewer bits, and the encoded length is exactly one bit per symbol.
pub proof fn lemma_one_bit_codes_optimal(
    t1: Seq<(char, Seq<bool>)>,
    t2: Seq<(char, Seq<bool>)>,
    input: Seq<char>,
    bits1: Seq<bool>,
    bits2: Seq<bool>,
)
    requires
        forall|m: int| 0 <= m < t1.len() ==> (#[trigger] t1[m]).1.len() == 1,
        forall|m: int| 0 <= m < t2.len() ==> (#[trigger] t2[m]).1.len() >= 1,
        spec_encode(input, t1) == Ok::<Seq<bool>, char>(bits1),
        spec_encode(input, t2) == Ok::<Seq<bool>, char>(bits2),
    ensures
        bits1.len() == input.len(),
        bits1.len() <= bits2.len(),
{
    lemma_encode_len_exact_one(input, t1, bits1);
    lemma_encode_len_at_least(input, t2, bits2);
}

/// Compares two bit strings.
fn bits_eq(a: &Vec<bool>, b: &Vec<bool>) -> (r: bool)
    ensures
        r <==> a@ == b@,
{
    let n = a.len();
    if n != b.len() {
        return false;
    }
    let mut i: usize = 0;
    while i < n
        invariant
            0 <= i <= n,
            n == a@.len(),
            n == b@.len(),
            forall|m: int| 0 <= m < i ==> a@[m] == b@[m],
        decreases n - i,
    {
        if a[i] != b[i] {
            return false;
        }
        i += 1;
    }
    proof {
        assert(a@ =~= b@);
    }
    true
}

/// Looks the entry for symbol `c` up.
fn find_symbol(t: &CodeTable, c: char) -> (r: Option<usize>)
    ensures
        match r {
            Some(j) => j < t.table().len() && t.table()[j as int].0 == c && code_for(
                t.table(),
                c,
            ) == Some(t.table()[j as int].1),
            None => code_for(t.table(), c) is None,
        },
{
    let n = t.entries.len();
    let mut i: usize = 0;
    proof {
        assert(t.table().skip(0) =~= t.table());
    }
    while i < n
        invariant
            0 <= i <= n,
            n == t.entries@.len(),
            forall|m: int| 0 <= m < i ==> (#[trigger] t.entries@[m]).0 != c,
            code_for(t.table(), c) == code_for(t.table().skip(i as int), c),
        decreases n - i,
    {
        proof {
            assert(t.table()[i as int] == (t.entries@[i as int].0, t.entries@[i as int].1@));
            assert(t.table().skip(i as int)[0] == t.table()[i as int]);
        }
        if t.entries[i].0 == c {
            proof {
                assert(code_for(t.table().skip(i as int), c) == Some(t.table()[i as int].1));
            }
            return Some(i);
        }
        proof {
            assert(t.table().skip(i as int).drop_first() =~= t.table().skip(i + 1));
        }
        i += 1;
    }
    proof {
        assert(t.table().skip(n as int) =~= Seq::<(char, Seq<bool>)>::empty());
    }
    None
}

/// Looks the entry whose code equals the candidate up.
fn find_code(t: &CodeTable, cand: &Vec<bool>) -> (r: Option<char>)
    ensures
        r == sym_for(t.table(), cand@),
{
    let n = t.entries.len();
    let mut i: usize = 0;
    proof {
        assert(t.table().skip(0) =~= t.table());
    }
    while i < n
        invariant
            0 <= i <= n,
            n == t.entries@.len(),
            sym_for(t.table(), cand@) == sym_for(t.table().skip(i as int), cand@),
        decreases n - i,
    {
        proof {
            assert(t.table()[i as int] == (t.entries@[i as int].0, t.entries@[i as int].1@));
            assert(t.table().skip(i as int)[0] == t.table()[i as int]);
        }
        if bits_eq(&t.entries[i].1, cand) {
            proof {
                assert(sym_for(t.table().skip(i as int), cand@) == Some(t.table()[i as int].0));
            }
            return Some(t.entries[i].0);
        }
        proof {
            assert(t.table().skip(i as int).drop_first() =~= t.table().skip(i + 1));
        }
        i += 1;
    }
    proof {
        assert(t.table().skip(n as int) =~= Seq::<(char, Seq<bool>)>::empty());
    }
    None
}

/// Encodes the input symbols: the concatenation of their codes, in
/// input order.  Fails with `UnknownSymbol` on the first symbol absent
/// from the table, which cannot happen when the table was built from
/// this input's own frequencies.
pub fn encode_symbols(input: &Vec<char>, t: &CodeTable) -> (r: Result<Vec<bool>, HuffError>)
    ensures
        match r {
            Ok(bits) => spec_encode(input@, t.table()) == Ok::<Seq<bool>, char>(bits@),
            Err(e) => {
                &&& e matches HuffError::UnknownSymbol(c) && spec_encode(input@, t.table())
                    == Err::<Seq<bool>, char>(c)
            },
        },
{
    let n = input.len();
    let mut out: Vec<bool> = Vec::new();
    let mut i: usize = 0;
    proof {
        assert(input@.skip(0) =~= input@);
        if spec_encode(input@, t.table()) is Ok {
            let rest = spec_encode(input@, t.table())->Ok_0;
            assert(Seq::<bool>::empty() + rest =~= rest);
        }
    }
    while i < n
        invariant
            0 <= i <= n,
            n == input@.len(),
            spec_encode(input@, t.table()) == (match spec_encode(
                input@.skip(i as int),
                t.table(),
            ) {
                Ok(rest) => Ok::<Seq<bool>, char>(out@ + rest),
                Err(c) => Err::<Seq<bool>, char>(c),
            }),
        decreases n - i,
    {
        let c = input[i];
        proof {
            assert(input@.skip(i as int)[0] == c);
            assert(input@.skip(i as int).drop_first() =~= input@.skip(i + 1));
        }
        match find_symbol(t, c) {
            Some(j) => {
                let ghost out0 = out@;
                let code = &t.entries[j].1;
                let ghost spec_code = t.table()[j as int].1;
                let m = code.len();
                let mut b: usize = 0;
                while b < m
                    invariant
                        0 <= b <= m,
                        j < t.entries@.len(),
                        m == t.entries@[j as int].1@.len(),
                        out@ == out0 + t.entries@[j as int].1@.take(b as int),
                    decreases m - b,
                {
                    out.push(t.entries[j].1[b]);
                    proof {
                        assert(t.entries@[j as int].1@.take(b + 1) =~= t.entries@[j as int].1@.take(
                            b as int,
                        ).push(t.entries@[j as int].1@[b as int]));
                    }
                    b += 1;
                }
                proof {
                    assert(t.entries@[j as int].1@.take(m as int) =~= t.entries@[j as int].1@);
                    assert(spec_code == t.entries@[j as int].1@);
                    assert(out@ == out0 + spec_code);
                    assert(code_for(t.table(), c) == Some(spec_code));
                    assert forall|rest: Seq<bool>| true implies out0 + (spec_code + rest) =~= out@
                        + rest by {}
                }
            },
            None => {
                proof {
                    assert(spec_encode(input@.skip(i as int), t.table()) == Err::<
                        Seq<bool>,
                        char,
                    >(c));
                }
                return Err(HuffError::UnknownSymbol(c));
            },
        }
        i += 1;
    }
    proof {
        assert(input@.skip(n as int) =~= Seq::<char>::empty());
        assert(out@ + Seq::<bool>::empty() =~= out@);
    }
    Ok(out)
}

/// Decodes a bit string by greedy matching against the table.  Fails
/// with `UndecodableTail` exactly when bits are left at the end that
/// match no code: the payload was truncated or corrupted.
pub fn decode_symbols(t: &CodeTable, bits: &Vec<bool>) -> (r: Result<Vec<char>, HuffError>)
    ensures
        match r {
            Ok(out) => spec_decode(t.table(), bits@) == Some(out@),
            Err(e) => e == HuffError::UndecodableTail && spec_decode(t.table(), bits@) is None,
        },
{
    let n = bits.len();
    let mut out: Vec<char> = Vec::new();
    let mut cand: Vec<bool> = Vec::new();
    let mut i: usize = 0;
    proof {
        assert(cand@ =~= Seq::<bool>::empty());
        assert(out@ =~= Seq::<char>::empty());
    }
    while i < n
        invariant
            0 <= i <= n,
            n == bits@.len(),
            spec_decode(t.table(), bits@) == spec_decode_from(
                t.table(),
                bits@,
                i as int,
                cand@,
                out@,
            ),
        decreases n - i,
    {
        cand.push(bits[i]);
        match find_code(t, &cand) {
            Some(c) => {
                out.push(c);
                cand.clear();
                proof {
                    assert(cand@ =~= Seq::<bool>::empty());
                }
            },
            None => {},
        }
        i += 1;
    }
    if cand.len() == 0 {
        Ok(out)
    } else {
        Err(HuffError::UndecodableTail)
    }
}

/// What the whole payload reads back to: the announced number of code
/// bits, or nothing when fewer bytes follow than the count calls for.
pub open spec fn spec_unpack(payload: Seq<u8>) -> Option<Seq<bool>> {
    if payload.len() < 8 {
        None
    } else {
        let count = le64_value(payload.take(8));
        if count > 8 * (payload.len() - 8) {
            None
        } else {
            Some(Seq::new(count as nat, |m: int| payload_bit(payload.skip(8), m)))
        }
    }
}

/// What decompressing a byte stream yields: exactly one error or the
/// recovered symbols, mirroring header parsing, bit unpacking and
/// greedy decoding in that order.
pub open spec fn spec_decompress(bytes: Seq<u8>) -> Result<Seq<char>, HuffError> {
    match spec_parse(bytes) {
        Option::None => Err(HuffError::MalformedHeader),
        Option::Some(p) => {
            if p.0.len() == 0 {
                Err(HuffError::MalformedHeader)
            } else {
                match spec_unpack(bytes.skip(p.1)) {
                    Option::None => Err(HuffError::UndecodableTail),
                    Option::Some(bits) => match spec_decode(p.0, bits) {
                        Option::None => Err(HuffError::UndecodableTail),
                        Option::Some(syms) => Ok(syms),
                    },
                }
            }
        },
    }
}

/// Decompresses a compressed byte stream: parses the header, unpacks
/// the payload bits, and decodes them greedily against the parsed
/// table.  Every outcome, the recovered text as well as each error, is
/// fixed by `spec_decompress`.
pub fn decompress(bytes: &Vec<u8>) -> (r: Result<Vec<char>, HuffError>)
    ensures
        match r {
            Ok(out) => spec_decompress(bytes@) == Ok::<Seq<char>, HuffError>(out@),
            Err(e) => spec_decompress(bytes@) == Err::<Seq<char>, HuffError>(e),
        },
{
    let (table, offset) = match parse_header(bytes) {
        Ok(p) => p,
        Err(e) => {
            return Err(e);
        },
    };
    let bits = match unpack_bits(bytes, offset) {
        Ok(b) => b,
        Err(e) => {
            proof {
                let payload = bytes@.skip(offset as int);
                assert(spec_unpack(payload) is None);
            }
            return Err(e);
        },
    };
    proof {
        let payload = bytes@.skip(offset as int);
        assert(spec_unpack(payload) == Some(bits@)) by {
            let count = le64_value(payload.take(8));
            assert(bits@ =~= Seq::new(count as nat, |m: int| payload_bit(payload.skip(8), m)));
        }
    }
    match decode_symbols(&table, &bits) {
        Ok(out) => Ok(out),
        Err(e) => Err(e),
    }
}

/// Builds the code table of a frequency table: the Huffman tree is
/// constructed and walked in one step.  The result is pinned: it is the
/// table of the tree the documented construction (`spec_build`)
/// determines, so it is a pure function of the frequency table, equal
/// runs give equal tables, a lone symbol gets the one-bit code `0`, and
/// every code is a leaf path of that full binary tree.  The table covers
/// exactly the frequency table's symbols, is prefix-free with non-empty
/// codes, and fails with `EmptyInput` if and only if there are no
/// frequencies.
pub fn build_tree(freq: &FreqTable) -> (r: Result<CodeTable, HuffError>)
    requires
        freq.wf(),
        crate::freq::total_count(freq.entries@) <= u64::MAX,
    ensures
        match r {
            Ok(t) => {
                &&& t.table() == table_of(
                    spec_build(freq.entries@).0,
                    spec_build(freq.entries@).1[0] as int,
                )
                &&& wf_table(t.table())
                &&& table_keys(t.table()).to_multiset() == freq.symbols().to_multiset()
                &&& t.table().len() > 0
                &&& freq.entries@.len() > 0
                &&& freq.entries@.len() == 1 ==> t.table() == seq![
                    (freq.entries@[0].0, seq![false]),
                ]
            },
            Err(e) => {
                &&& e == HuffError::EmptyInput
                &&& freq.entries@.len() == 0
            },
        },
{
    let tree = match build_huffman_tree(freq) {
        Ok(t) => t,
        Err(e) => {
            return Err(e);
        },
    };
    let table = derive_codes(&tree);
    proof {
        let keys = table_keys(table.table());
        assert(keys.to_multiset() == freq.symbols().to_multiset());
        freq.symbols().lemma_multiset_has_no_duplicates();
        keys.lemma_multiset_has_no_duplicates_conv();
        assert(keys.no_duplicates());
        keys.to_multiset_ensures();
        freq.symbols().to_multiset_ensures();
        assert(keys.len() == freq.symbols().len());
        assert(freq.symbols().len() > 0);
        // the tree is the constructed one, so the table is its table
        assert(spec_build(freq.entries@).1[0] == tree.root);
        assert(table.table() == table_of(
            spec_build(freq.entries@).0,
            spec_build(freq.entries@).1[0] as int,
        ));
        // a lone symbol gets the one-bit code
        if freq.entries@.len() == 1 {
            let c = freq.entries@[0].0;
            assert(freq.symbols() =~= seq![c]);
            let ls = tree.leaf_symbols();
            freq.symbols().to_multiset_ensures();
            ls.to_multiset_ensures();
            assert(ls.len() == 1);
            assert(ls.contains(ls[0]));
            assert(ls.to_multiset().count(ls[0]) > 0);
            assert(freq.symbols().to_multiset().count(ls[0]) > 0);
            assert(freq.symbols().contains(ls[0]));
            assert(ls =~= seq![c]);
            lemma_single_symbol_one_bit(tree, c);
        }
    }
    Ok(table)
}

/// Compresses a non-empty text: counts frequencies, builds the code
/// table, writes the header and the packed payload.  Decompressing the
/// output gives the input back exactly, and a stream cut short by its
/// last byte is always rejected as an undecodable tail.  Fails with
/// `EmptyInput` if and only if the input holds no symbol.
#[verifier::rlimit(100)]
pub fn compress(input: &Vec<char>) -> (r: Result<Vec<u8>, HuffError>)
    ensures
        match r {
            Ok(out) => {
                &&& input@.len() > 0
                &&& spec_decompress(out@) == Ok::<Seq<char>, HuffError>(input@)
                &&& out@.len() > 0
                &&& spec_decompress(out@.take(out@.len() - 1)) == Err::<Seq<char>, HuffError>(
                    HuffError::UndecodableTail,
                )
            },
            Err(e) => {
                &&& e == HuffError::EmptyInput
                &&& input@.len() == 0
            },
        },
{
    let ilen = input.len();
    let freq = count_frequencies(input);
    proof {
        assert(crate::freq::total_count(freq.entries@) == ilen);
    }
    let table = match build_tree(&freq) {
        Ok(t) => t,
        Err(e) => {
            return Err(e);
        },
    };
    proof {
        lemma_distinct_symbols(input@);
        let keys = table_keys(table.table());
        keys.to_multiset_ensures();
        freq.symbols().to_multiset_ensures();
        assert forall|m: int| 0 <= m < input@.len() implies keys.contains(
            #[trigger] input@[m],
        ) by {
            assert(input@.contains(input@[m]));
            assert(distinct_symbols(input@).contains(input@[m]));
            assert(freq.symbols().contains(input@[m]));
            assert(freq.symbols().to_multiset().count(input@[m]) > 0);
            assert(keys.to_multiset().count(input@[m]) > 0);
        }
        lemma_encode_covered(input@, table.table());
    }
    let bits = match encode_symbols(input, &table) {
        Ok(b) => b,
        Err(e) => {
            proof {
                assert(false);
            }
            return Err(e);
        },
    };
    let nbits = bits.len();
    let mut payload = pack_bits(&bits);
    let mut out = serialize_header(&table);
    let ghost hdr = out@;
    let ghost pl = payload@;
    out.append(&mut payload);
    proof {
        let t = table.table();
        let full = out@;
        assert(full == hdr + pl);
        // the header parses back to the table, with the payload following
        lemma_parse_of_serialized(t, pl);
        assert(spec_parse(full) == Some((t, hdr.len() as int)));
        assert(full.skip(hdr.len() as int) =~= pl);
        // the payload unpacks back to the code bits
        lemma_le64_roundtrip(bits@.len() as u64);
        assert(pl.take(8) == crate::bits::le64_bytes(bits@.len() as u64));
        assert(le64_value(pl.take(8)) == bits@.len());
        lemma_fundamental_div_mod(bits@.len() as int + 7, 8);
        assert(bits@.len() <= 8 * (pl.len() - 8));
        assert(spec_unpack(pl) == Some(bits@)) by {
            assert(Seq::new(bits@.len() as nat, |m: int| payload_bit(pl.skip(8), m)) =~= bits@);
        }
        // the bits decode back to the input
        lemma_greedy_round_trip(t, input@, bits@);
        assert(spec_decompress(full) == Ok::<Seq<char>, HuffError>(input@));
        // a stream cut short loses code bits and is rejected
        lemma_encode_nonempty(input@, t, bits@);
        let cut = full.take(full.len() - 1);
        assert(packed_len(bits@.len() as int) >= 1);
        assert(cut =~= hdr + pl.take(pl.len() - 1));
        lemma_parse_of_serialized(t, pl.take(pl.len() - 1));
        assert(spec_parse(cut) == Some((t, hdr.len() as int)));
        let plc = pl.take(pl.len() - 1);
        assert(cut.skip(hdr.len() as int) =~= plc);
        assert(plc.len() >= 8);
        assert(plc.take(8) =~= pl.take(8));
        assert(le64_value(plc.take(8)) == bits@.len());
        assert(bits@.len() > 8 * (plc.len() - 8)) by {
            assert(plc.len() - 8 == packed_len(bits@.len() as int) - 1);
            assert(8 * (packed_len(bits@.len() as int) - 1) < bits@.len());
        }
        assert(spec_unpack(plc) is None);
        assert(spec_decompress(cut) == Err::<Seq<char>, HuffError>(HuffError::UndecodableTail));
    }
    Ok(out)
}

} // verus!
