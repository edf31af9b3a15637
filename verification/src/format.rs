//! Rendering of finished sequences as delimited text. Symbols are stored as
//! powers of two; a report shows each symbol's zero-based index (its discrete
//! base-two logarithm), written in decimal and joined by a delimiter.

use vstd::prelude::*;
use vstd::string::StringExecFns;

use crate::is_powval;
use crate::sig::all_symbols_below;
use crate::symbol_value;
use crate::MAX_ALPHABET;

verus! {

/// The decimal digit character for a value below ten.
pub open spec fn digit_char(d: int) -> char {
    if d == 0 {
        '0'
    } else if d == 1 {
        '1'
    } else if d == 2 {
        '2'
    } else if d == 3 {
        '3'
    } else if d == 4 {
        '4'
    } else if d == 5 {
        '5'
    } else if d == 6 {
        '6'
    } else if d == 7 {
        '7'
    } else if d == 8 {
        '8'
    } else {
        '9'
    }
}

/// The decimal representation of a nonnegative number, most significant
/// digit first.
pub open spec fn spec_decimal(n: int) -> Seq<char>
    decreases n,
{
    if n < 10 {
        seq![digit_char(n)]
    } else {
        spec_decimal(n / 10) + seq![digit_char(n % 10)]
    }
}

/// The index of a stored symbol value: the exponent of its single bit.
pub open spec fn symbol_index_of(v: u16) -> nat {
    choose|k: nat| k < MAX_ALPHABET && v == symbol_value(k)
}

/// The rendering of one sequence: the decimal symbol indices joined by the
/// separator.
pub open spec fn spec_sequence_text(s: Seq<u16>, sep: Seq<char>) -> Seq<char>
    decreases s.len(),
{
    if s.len() == 0 {
        Seq::empty()
    } else if s.len() == 1 {
        spec_decimal(symbol_index_of(s[0]) as int)
    } else {
        spec_sequence_text(s.drop_last(), sep) + sep + spec_decimal(
            symbol_index_of(s.last()) as int,
        )
    }
}

/// The rendering of one sequence by raw stored values, not indices.
pub open spec fn spec_raw_text(s: Seq<u16>, sep: Seq<char>) -> Seq<char>
    decreases s.len(),
{
    if s.len() == 0 {
        Seq::empty()
    } else if s.len() == 1 {
        spec_decimal(s[0] as int)
    } else {
        spec_raw_text(s.drop_last(), sep) + sep + spec_decimal(s.last() as int)
    }
}

/// The one-character text of a decimal digit.
fn digit_str(d: u16) -> (r: &'static str)
    requires
        d < 10,
    ensures
        r@ == seq![digit_char(d as int)],
{
    proof {
        reveal_strlit("0");
        reveal_strlit("1");
        reveal_strlit("2");
        reveal_strlit("3");
        reveal_strlit("4");
        reveal_strlit("5");
        reveal_strlit("6");
        reveal_strlit("7");
        reveal_strlit("8");
        reveal_strlit("9");
    }
    let r: &'static str = if d == 0 {
        "0"
    } else if d == 1 {
        "1"
    } else if d == 2 {
        "2"
    } else if d == 3 {
        "3"
    } else if d == 4 {
        "4"
    } else if d == 5 {
        "5"
    } else if d == 6 {
        "6"
    } else if d == 7 {
        "7"
    } else if d == 8 {
        "8"
    } else {
        "9"
    };
    proof {
        assert(r@ =~= seq![digit_char(d as int)]);
    }
    r
}

/// Writes a number in decimal.
pub fn u16_to_decimal(n: u16) -> (r: String)
    ensures
        r@ == spec_decimal(n as int),
    decreases n,
{
    if n < 10 {
        String::from_str(digit_str(n))
    } else {
        let mut r = u16_to_decimal(n / 10);
        r.append(digit_str(n % 10));
        r
    }
}

/// The zero-based index of a stored symbol value: the discrete base-two
/// logarithm of its single bit.
pub fn symbol_index(num: u16) -> (r: u16)
    requires
        is_powval(num),
    ensures
        num == symbol_value(r as nat),
        r < MAX_ALPHABET,
        r == symbol_index_of(num),
{
    let ghost kn = choose|k: nat| k < MAX_ALPHABET && num == symbol_value(k);
    proof {
        crate::lemma_symbol_value_bounds(kn);
    }
    let mut k: u16 = 0;
    let mut v: u16 = 1;
    proof {
        assert(v == symbol_value(0)) by {
            assert((1u16 << 0u16) == 1) by (bit_vector);
        }
        if 0 < kn {
            crate::lemma_symbol_value_increases(0, kn);
        }
    }
    while v < num
        invariant
            kn < MAX_ALPHABET,
            num == symbol_value(kn),
            k <= kn,
            v == symbol_value(k as nat),
            v <= num,
        decreases num - v,
    {
        proof {
            if k == kn {
                assert(false);
            }
            crate::lemma_symbol_value_double(k as nat);
            if k + 1 < kn {
                crate::lemma_symbol_value_increases((k + 1) as nat, kn);
            }
            crate::lemma_symbol_value_bounds((k + 1) as nat);
        }
        v = v * 2;
        k = k + 1;
    }
    proof {
        assert(v == num);
        lemma_index_unique(k as nat, num);
    }
    k
}

/// The chosen index of a symbol value agrees with any witness: symbol values
/// are injective in the index.
proof fn lemma_index_unique(k: nat, num: u16)
    requires
        k < MAX_ALPHABET,
        num == symbol_value(k),
    ensures
        symbol_index_of(num) == k,
{
    let kc = symbol_index_of(num);
    assert(kc < MAX_ALPHABET && num == symbol_value(kc)) by {
        assert(k < MAX_ALPHABET && num == symbol_value(k));
    }
    if kc < k {
        crate::lemma_symbol_value_increases(kc, k);
    }
    if k < kc {
        crate::lemma_symbol_value_increases(k, kc);
    }
}

/// Renders one sequence as its decimal symbol indices joined by commas.
pub fn format_sequence(sequence: &Vec<u16>) -> (r: String)
    requires
        all_symbols_below(sequence@, MAX_ALPHABET as nat),
    ensures
        r@ == spec_sequence_text(sequence@, ","@),
{
    let mut r = String::new();
    let mut i: usize = 0;
    while i < sequence.len()
        invariant
            i <= sequence@.len(),
            all_symbols_below(sequence@, MAX_ALPHABET as nat),
            r@ == spec_sequence_text(sequence@.subrange(0, i as int), ","@),
        decreases sequence@.len() - i,
    {
        if i > 0 {
            r.append(",");
        }
        let idx = symbol_index(sequence[i]);
        let text = u16_to_decimal(idx);
        r.append(text.as_str());
        proof {
            let pre = sequence@.subrange(0, i as int);
            let ext = sequence@.subrange(0, i as int + 1);
            assert(ext.drop_last() =~= pre);
            assert(ext.last() == sequence@[i as int]);
            assert(r@ =~= spec_sequence_text(ext, ","@));
        }
        i = i + 1;
    }
    proof {
        assert(sequence@.subrange(0, sequence@.len() as int) =~= sequence@);
    }
    r
}

/// Renders every sequence of a report, one comma-delimited line each.
pub fn format_sequences(sequences: &Vec<Vec<u16>>) -> (r: Vec<String>)
    requires
        forall|i: int|
            0 <= i < sequences@.len() ==> all_symbols_below(
                (#[trigger] sequences@[i])@,
                MAX_ALPHABET as nat,
            ),
    ensures
        r@.len() == sequences@.len(),
        forall|i: int|
            0 <= i < r@.len() ==> (#[trigger] r@[i])@ == spec_sequence_text(
                sequences@[i]@,
                ","@,
            ),
{
    let mut r: Vec<String> = Vec::new();
    let mut i: usize = 0;
    while i < sequences.len()
        invariant
            i <= sequences@.len(),
            r@.len() == i,
            forall|j: int|
                0 <= j < sequences@.len() ==> all_symbols_below(
                    (#[trigger] sequences@[j])@,
                    MAX_ALPHABET as nat,
                ),
            forall|j: int|
                0 <= j < i ==> (#[trigger] r@[j])@ == spec_sequence_text(
                    sequences@[j]@,
                    ","@,
                ),
        decreases sequences@.len() - i,
    {
        let line = format_sequence(&sequences[i]);
        r.push(line);
        i = i + 1;
    }
    r
}

/// Renders one sequence by its raw stored values, joined by commas.
pub fn _sequence_to_string(sequence: &Vec<u16>) -> (r: String)
    ensures
        r@ == spec_raw_text(sequence@, ","@),
{
    let mut r = String::new();
    let mut i: usize = 0;
    while i < sequence.len()
        invariant
            i <= sequence@.len(),
            r@ == spec_raw_text(sequence@.subrange(0, i as int), ","@),
        decreases sequence@.len() - i,
    {
        if i > 0 {
            r.append(",");
        }
        let text = u16_to_decimal(sequence[i]);
        r.append(text.as_str());
        proof {
            let pre = sequence@.subrange(0, i as int);
            let ext = sequence@.subrange(0, i as int + 1);
            assert(ext.drop_last() =~= pre);
            assert(ext.last() == sequence@[i as int]);
            assert(r@ =~= spec_raw_text(ext, ","@));
        }
        i = i + 1;
    }
    proof {
        assert(sequence@.subrange(0, sequence@.len() as int) =~= sequence@);
    }
    r
}

} // verus!
