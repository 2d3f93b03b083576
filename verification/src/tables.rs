//! Translation tables: codepoint and Latin-1 byte replacements to ASCII.
//!
//! The data is held twice: once as spec sequences, which the contracts of the
//! filters speak of, and once as executable slices, which the verified lookup
//! functions search. Each executable table is proved equal to its spec twin.

use vstd::prelude::*;

verus! {

/// The codepoint table as a mathematical sequence of (codepoint, replacement)
/// pairs, in ascending codepoint order.
pub open spec fn utf8_table() -> Seq<(u32, Seq<u8>)> {
    seq![
        (0x00A0u32, seq![32u8]),
        (0x00A1u32, seq![33u8]),
        (0x00A2u32, seq![99u8]),
        (0x00A3u32, seq![76u8]),
        (0x00A5u32, seq![89u8]),
        (0x00A7u32, seq![83u8]),
        (0x00A9u32, seq![40u8, 67u8, 41u8]),
        (0x00ABu32, seq![60u8, 60u8]),
        (0x00ADu32, seq![45u8]),
        (0x00AEu32, seq![40u8, 82u8, 41u8]),
        (0x00B0u32, seq![111u8]),
        (0x00B1u32, seq![43u8, 45u8]),
        (0x00B5u32, seq![117u8]),
        (0x00B7u32, seq![46u8]),
        (0x00BBu32, seq![62u8, 62u8]),
        (0x00BFu32, seq![63u8]),
        (0x00C0u32, seq![65u8]),
        (0x00C1u32, seq![65u8]),
        (0x00C2u32, seq![65u8]),
        (0x00C3u32, seq![65u8]),
        (0x00C4u32, seq![65u8]),
        (0x00C5u32, seq![65u8]),
        (0x00C6u32, seq![65u8, 69u8]),
        (0x00C7u32, seq![67u8]),
        (0x00C8u32, seq![69u8]),
        (0x00C9u32, seq![69u8]),
        (0x00CAu32, seq![69u8]),
        (0x00CBu32, seq![69u8]),
        (0x00CCu32, seq![73u8]),
        (0x00CDu32, seq![73u8]),
        (0x00CEu32, seq![73u8]),
        (0x00CFu32, seq![73u8]),
        (0x00D0u32, seq![68u8]),
        (0x00D1u32, seq![78u8]),
        (0x00D2u32, seq![79u8]),
        (0x00D3u32, seq![79u8]),
        (0x00D4u32, seq![79u8]),
        (0x00D5u32, seq![79u8]),
        (0x00D6u32, seq![79u8]),
        (0x00D8u32, seq![79u8]),
        (0x00D9u32, seq![85u8]),
        (0x00DAu32, seq![85u8]),
        (0x00DBu32, seq![85u8]),
        (0x00DCu32, seq![85u8]),
        (0x00DDu32, seq![89u8]),
        (0x00DEu32, seq![84u8, 104u8]),
        (0x00DFu32, seq![115u8, 115u8]),
        (0x00E0u32, seq![97u8]),
        (0x00E1u32, seq![97u8]),
        (0x00E2u32, seq![97u8]),
        (0x00E3u32, seq![97u8]),
        (0x00E4u32, seq![97u8]),
        (0x00E5u32, seq![97u8]),
        (0x00E6u32, seq![97u8, 101u8]),
        (0x00E7u32, seq![99u8]),
        (0x00E8u32, seq![101u8]),
        (0x00E9u32, seq![101u8]),
        (0x00EAu32, seq![101u8]),
        (0x00EBu32, seq![101u8]),
        (0x00ECu32, seq![105u8]),
        (0x00EDu32, seq![105u8]),
        (0x00EEu32, seq![105u8]),
        (0x00EFu32, seq![105u8]),
        (0x00F0u32, seq![100u8]),
        (0x00F1u32, seq![110u8]),
        (0x00F2u32, seq![111u8]),
        (0x00F3u32, seq![111u8]),
        (0x00F4u32, seq![111u8]),
        (0x00F5u32, seq![111u8]),
        (0x00F6u32, seq![111u8]),
        (0x00F8u32, seq![111u8]),
        (0x00F9u32, seq![117u8]),
        (0x00FAu32, seq![117u8]),
        (0x00FBu32, seq![117u8]),
        (0x00FCu32, seq![117u8]),
        (0x00FDu32, seq![121u8]),
        (0x00FFu32, seq![121u8]),
    ]
}

/// The Latin-1 table as a mathematical sequence: entry `i` is the replacement
/// of byte `0x80 + i`, or `None` when that byte passes through unchanged.
pub open spec fn iso8859_1_table() -> Seq<Option<Seq<u8>>> {
    seq![
        None, // 0x80
        None, // 0x81
        None, // 0x82
        None, // 0x83
        None, // 0x84
        None, // 0x85
        None, // 0x86
        None, // 0x87
        None, // 0x88
        None, // 0x89
        None, // 0x8A
        None, // 0x8B
        None, // 0x8C
        None, // 0x8D
        None, // 0x8E
        None, // 0x8F
        None, // 0x90
        None, // 0x91
        None, // 0x92
        None, // 0x93
        None, // 0x94
        None, // 0x95
        None, // 0x96
        None, // 0x97
        None, // 0x98
        None, // 0x99
        None, // 0x9A
        None, // 0x9B
        None, // 0x9C
        None, // 0x9D
        None, // 0x9E
        None, // 0x9F
        Some(seq![32u8]), // 0xA0
        Some(seq![33u8]), // 0xA1
        Some(seq![99u8]), // 0xA2
        Some(seq![76u8]), // 0xA3
        None, // 0xA4
        Some(seq![89u8]), // 0xA5
        None, // 0xA6
        Some(seq![83u8]), // 0xA7
        None, // 0xA8
        Some(seq![40u8, 67u8, 41u8]), // 0xA9
        None, // 0xAA
        Some(seq![60u8, 60u8]), // 0xAB
        None, // 0xAC
        Some(seq![45u8]), // 0xAD
        Some(seq![40u8, 82u8, 41u8]), // 0xAE
        None, // 0xAF
        Some(seq![111u8]), // 0xB0
        Some(seq![43u8, 45u8]), // 0xB1
        None, // 0xB2
        None, // 0xB3
        None, // 0xB4
        Some(seq![117u8]), // 0xB5
        None, // 0xB6
        Some(seq![46u8]), // 0xB7
        None, // 0xB8
        None, // 0xB9
        None, // 0xBA
        Some(seq![62u8, 62u8]), // 0xBB
        None, // 0xBC
        None, // 0xBD
        None, // 0xBE
        Some(seq![63u8]), // 0xBF
        Some(seq![65u8]), // 0xC0
        Some(seq![65u8]), // 0xC1
        Some(seq![65u8]), // 0xC2
        Some(seq![65u8]), // 0xC3
        Some(seq![65u8]), // 0xC4
        Some(seq![65u8]), // 0xC5
        Some(seq![65u8, 69u8]), // 0xC6
        Some(seq![67u8]), // 0xC7
        Some(seq![69u8]), // 0xC8
        Some(seq![69u8]), // 0xC9
        Some(seq![69u8]), // 0xCA
        Some(seq![69u8]), // 0xCB
        Some(seq![73u8]), // 0xCC
        Some(seq![73u8]), // 0xCD
        Some(seq![73u8]), // 0xCE
        Some(seq![73u8]), // 0xCF
        Some(seq![68u8]), // 0xD0
        Some(seq![78u8]), // 0xD1
        Some(seq![79u8]), // 0xD2
        Some(seq![79u8]), // 0xD3
        Some(seq![79u8]), // 0xD4
        Some(seq![79u8]), // 0xD5
        Some(seq![79u8]), // 0xD6
        None, // 0xD7
        Some(seq![79u8]), // 0xD8
        Some(seq![85u8]), // 0xD9
        Some(seq![85u8]), // 0xDA
        Some(seq![85u8]), // 0xDB
        Some(seq![85u8]), // 0xDC
        Some(seq![89u8]), // 0xDD
        Some(seq![84u8, 104u8]), // 0xDE
        Some(seq![115u8, 115u8]), // 0xDF
        Some(seq![97u8]), // 0xE0
        Some(seq![97u8]), // 0xE1
        Some(seq![97u8]), // 0xE2
        Some(seq![97u8]), // 0xE3
        Some(seq![97u8]), // 0xE4
        Some(seq![97u8]), // 0xE5
        Some(seq![97u8, 101u8]), // 0xE6
        Some(seq![99u8]), // 0xE7
        Some(seq![101u8]), // 0xE8
        Some(seq![101u8]), // 0xE9
        Some(seq![101u8]), // 0xEA
        Some(seq![101u8]), // 0xEB
        Some(seq![105u8]), // 0xEC
        Some(seq![105u8]), // 0xED
        Some(seq![105u8]), // 0xEE
        Some(seq![105u8]), // 0xEF
        Some(seq![100u8]), // 0xF0
        Some(seq![110u8]), // 0xF1
        Some(seq![111u8]), // 0xF2
        Some(seq![111u8]), // 0xF3
        Some(seq![111u8]), // 0xF4
        Some(seq![111u8]), // 0xF5
        Some(seq![111u8]), // 0xF6
        None, // 0xF7
        Some(seq![111u8]), // 0xF8
        Some(seq![117u8]), // 0xF9
        Some(seq![117u8]), // 0xFA
        Some(seq![117u8]), // 0xFB
        Some(seq![117u8]), // 0xFC
        Some(seq![121u8]), // 0xFD
        None, // 0xFE
        Some(seq![121u8]), // 0xFF
    ]
}

/// Holds when every codepoint in `t` is smaller than all that follow it.
pub open spec fn codepoints_ascending(t: Seq<(u32, Seq<u8>)>) -> bool {
    forall|i: int, j: int| 0 <= i < j < t.len() ==> t[i].0 < t[j].0
}

/// Neighbour-wise form of [`codepoints_ascending`], checked from index `k` on.
spec fn ascending_from(t: Seq<(u32, Seq<u8>)>, k: nat) -> bool
    decreases t.len() - k,
{
    if k + 1 >= t.len() {
        true
    } else {
        t[k as int].0 < t[k + 1int].0 && ascending_from(t, k + 1)
    }
}

proof fn lemma_ascending_from(t: Seq<(u32, Seq<u8>)>, k: nat)
    requires
        ascending_from(t, k),
    ensures
        forall|i: int, j: int| k <= i < j < t.len() ==> t[i].0 < t[j].0,
    decreases t.len() - k,
{
    if k + 1 < t.len() {
        lemma_ascending_from(t, k + 1);
    }
}

/// The codepoint table is strictly ascending, so no codepoint occurs twice.
pub proof fn lemma_utf8_table_ascending()
    ensures
        codepoints_ascending(utf8_table()),
{
    reveal_with_fuel(ascending_from, 80);
    assert(ascending_from(utf8_table(), 0));
    lemma_ascending_from(utf8_table(), 0);
}

/// The codepoint table holds nothing below U+00A0: ASCII and the C1
/// controls have no replacement.
pub proof fn lemma_utf8_table_from_a0(cp: u32)
    ensures
        cp < 0xA0 ==> utf8_replacement(cp) is None,
{
    lemma_utf8_table_ascending();
    let t = utf8_table();
    assert(t[0].0 == 0xA0);
    if exists|i: int| 0 <= i < t.len() && t[i].0 == cp {
        let i = choose|i: int| 0 <= i < t.len() && t[i].0 == cp;
        if i > 0 {
            assert(t[0].0 < t[i].0);
        }
    }
}

/// The two tables walked side by side: the Latin-1 table from index `i`
/// (byte `0x80 + i`) and the codepoint table from entry `k`. Each byte has
/// the replacement of the entry for its codepoint, or none when no entry
/// has that codepoint.
spec fn tables_agree_from(i: nat, k: nat) -> bool
    decreases 128 - i,
{
    if i >= 128 {
        k == utf8_table().len()
    } else if k < utf8_table().len() && utf8_table()[k as int].0 == 0x80 + i {
        iso8859_1_table()[i as int] == Some(utf8_table()[k as int].1) && tables_agree_from(i + 1, k + 1)
    } else {
        iso8859_1_table()[i as int] is None && tables_agree_from(i + 1, k)
    }
}

#[verifier::spinoff_prover]
#[verifier::rlimit(100)]
proof fn lemma_tables_agree_checked()
    ensures
        tables_agree_from(0, 0),
{
    // Sixteen bytes at a time, from the end of the tables.
    reveal_with_fuel(tables_agree_from, 17);
    assert(tables_agree_from(128, 77));
    assert(tables_agree_from(112, 63));
    assert(tables_agree_from(96, 47));
    assert(tables_agree_from(80, 32));
    assert(tables_agree_from(64, 16));
    assert(tables_agree_from(48, 10));
    assert(tables_agree_from(32, 0));
    assert(tables_agree_from(16, 0));
    assert(tables_agree_from(0, 0));
}

/// The replacement the codepoint table `t` pairs with `cp`, searched from
/// entry `k` on.
pub open spec fn table_lookup_from(t: Seq<(u32, Seq<u8>)>, cp: u32, k: nat) -> Option<Seq<u8>>
    decreases t.len() - k,
{
    if k >= t.len() {
        None
    } else if t[k as int].0 == cp {
        Some(t[k as int].1)
    } else {
        table_lookup_from(t, cp, k + 1)
    }
}

proof fn lemma_table_lookup_from(cp: u32, k: nat)
    requires
        forall|i: int| 0 <= i < k && i < utf8_table().len() ==> utf8_table()[i].0 != cp,
    ensures
        table_lookup_from(utf8_table(), cp, k) == utf8_replacement(cp),
    decreases utf8_table().len() - k,
{
    let t = utf8_table();
    lemma_utf8_table_ascending();
    if k >= t.len() {
        if exists|i: int| 0 <= i < t.len() && t[i].0 == cp {
            let i = choose|i: int| 0 <= i < t.len() && t[i].0 == cp;
            assert(t[i].0 != cp);
        }
    } else if t[k as int].0 == cp {
        let i = choose|i: int| 0 <= i < t.len() && t[i].0 == cp;
        if i < k {
            assert(t[i].0 != cp);
        } else if i > k {
            assert(t[k as int].0 < t[i].0);
        }
    } else {
        lemma_table_lookup_from(cp, k + 1);
    }
}

/// From entry `k` on, the ascending codepoint table holds nothing for a
/// codepoint below that of entry `k`.
proof fn lemma_lookup_none_below(cp: u32, k: nat)
    requires
        k < utf8_table().len() ==> utf8_table()[k as int].0 > cp,
    ensures
        table_lookup_from(utf8_table(), cp, k) is None,
    decreases utf8_table().len() - k,
{
    lemma_utf8_table_ascending();
    if k + 1 < utf8_table().len() {
        assert(utf8_table()[k as int].0 < utf8_table()[k + 1int].0);
    }
    if k < utf8_table().len() {
        lemma_lookup_none_below(cp, k + 1);
    }
}

proof fn lemma_tables_agree_from(i: nat, k: nat)
    requires
        tables_agree_from(i, k),
        k <= utf8_table().len(),
        k < utf8_table().len() ==> utf8_table()[k as int].0 >= 0x80 + i,
    ensures
        forall|b: int| i <= b < 128 ==> iso8859_1_table()[b] == table_lookup_from(utf8_table(), (0x80 + b) as u32, k),
    decreases 128 - i,
{
    lemma_utf8_table_ascending();
    let t = utf8_table();
    if i < 128 {
        if k < t.len() && t[k as int].0 == 0x80 + i {
            if k + 1 < t.len() {
                assert(t[k as int].0 < t[k + 1int].0);
            }
            lemma_tables_agree_from(i + 1, k + 1);
        } else {
            lemma_tables_agree_from(i + 1, k);
            lemma_lookup_none_below((0x80 + i) as u32, k);
        }
    }
}

/// The two tables agree: the Latin-1 byte `b` has the replacement of the
/// codepoint U+00`b`, and bytes below `0x80` have none in either.
pub proof fn lemma_iso8859_1_agrees_with_utf8(b: u8)
    ensures
        iso8859_1_replacement(b) == utf8_replacement(b as u32),
{
    if b < 0x80 {
        lemma_utf8_table_from_a0(b as u32);
    } else {
        lemma_tables_agree_checked();
        assert(utf8_table()[0].0 == 0xA0);
        lemma_tables_agree_from(0, 0);
        assert(iso8859_1_table()[b - 0x80] == table_lookup_from(utf8_table(), (0x80 + (b - 0x80)) as u32, 0));
        lemma_table_lookup_from(b as u32, 0);
    }
}

/// Codepoint-to-ASCII table, sorted by codepoint for binary search.
pub fn utf_8_table() -> (t: &'static [(u32, &'static [u8])])
    ensures
        t@.len() == utf8_table().len(),
        forall|i: int|
            0 <= i < t@.len() ==> (#[trigger] t@[i]).0 == utf8_table()[i].0 && t@[i].1@
                == utf8_table()[i].1,
{
    let t: &'static [(u32, &'static [u8])] = &[
        (0x00A0u32, &[32u8]),
        (0x00A1u32, &[33u8]),
        (0x00A2u32, &[99u8]),
        (0x00A3u32, &[76u8]),
        (0x00A5u32, &[89u8]),
        (0x00A7u32, &[83u8]),
        (0x00A9u32, &[40u8, 67u8, 41u8]),
        (0x00ABu32, &[60u8, 60u8]),
        (0x00ADu32, &[45u8]),
        (0x00AEu32, &[40u8, 82u8, 41u8]),
        (0x00B0u32, &[111u8]),
        (0x00B1u32, &[43u8, 45u8]),
        (0x00B5u32, &[117u8]),
        (0x00B7u32, &[46u8]),
        (0x00BBu32, &[62u8, 62u8]),
        (0x00BFu32, &[63u8]),
        (0x00C0u32, &[65u8]),
        (0x00C1u32, &[65u8]),
        (0x00C2u32, &[65u8]),
        (0x00C3u32, &[65u8]),
        (0x00C4u32, &[65u8]),
        (0x00C5u32, &[65u8]),
        (0x00C6u32, &[65u8, 69u8]),
        (0x00C7u32, &[67u8]),
        (0x00C8u32, &[69u8]),
        (0x00C9u32, &[69u8]),
        (0x00CAu32, &[69u8]),
        (0x00CBu32, &[69u8]),
        (0x00CCu32, &[73u8]),
        (0x00CDu32, &[73u8]),
        (0x00CEu32, &[73u8]),
        (0x00CFu32, &[73u8]),
        (0x00D0u32, &[68u8]),
        (0x00D1u32, &[78u8]),
        (0x00D2u32, &[79u8]),
        (0x00D3u32, &[79u8]),
        (0x00D4u32, &[79u8]),
        (0x00D5u32, &[79u8]),
        (0x00D6u32, &[79u8]),
        (0x00D8u32, &[79u8]),
        (0x00D9u32, &[85u8]),
        (0x00DAu32, &[85u8]),
        (0x00DBu32, &[85u8]),
        (0x00DCu32, &[85u8]),
        (0x00DDu32, &[89u8]),
        (0x00DEu32, &[84u8, 104u8]),
        (0x00DFu32, &[115u8, 115u8]),
        (0x00E0u32, &[97u8]),
        (0x00E1u32, &[97u8]),
        (0x00E2u32, &[97u8]),
        (0x00E3u32, &[97u8]),
        (0x00E4u32, &[97u8]),
        (0x00E5u32, &[97u8]),
        (0x00E6u32, &[97u8, 101u8]),
        (0x00E7u32, &[99u8]),
        (0x00E8u32, &[101u8]),
        (0x00E9u32, &[101u8]),
        (0x00EAu32, &[101u8]),
        (0x00EBu32, &[101u8]),
        (0x00ECu32, &[105u8]),
        (0x00EDu32, &[105u8]),
        (0x00EEu32, &[105u8]),
        (0x00EFu32, &[105u8]),
        (0x00F0u32, &[100u8]),
        (0x00F1u32, &[110u8]),
        (0x00F2u32, &[111u8]),
        (0x00F3u32, &[111u8]),
        (0x00F4u32, &[111u8]),
        (0x00F5u32, &[111u8]),
        (0x00F6u32, &[111u8]),
        (0x00F8u32, &[111u8]),
        (0x00F9u32, &[117u8]),
        (0x00FAu32, &[117u8]),
        (0x00FBu32, &[117u8]),
        (0x00FCu32, &[117u8]),
        (0x00FDu32, &[121u8]),
        (0x00FFu32, &[121u8]),
    ];
    t
}

/// Latin-1 high-byte table: entry `i` holds the replacement of byte `0x80 + i`.
pub fn iso8859_1_entries() -> (t: &'static [Option<&'static [u8]>])
    ensures
        t@.len() == iso8859_1_table().len(),
        forall|i: int|
            0 <= i < t@.len() ==> match (#[trigger] t@[i]) {
                Some(r) => iso8859_1_table()[i] == Some(r@),
                None => iso8859_1_table()[i] is None,
            },
{
    let t: &'static [Option<&'static [u8]>] = &[
        None,
        None,
        None,
        None,
        None,
        None,
        None,
        None,
        None,
        None,
        None,
        None,
        None,
        None,
        None,
        None,
        None,
        None,
        None,
        None,
        None,
        None,
        None,
        None,
        None,
        None,
        None,
        None,
        None,
        None,
        None,
        None,
        Some(&[32u8]),
        Some(&[33u8]),
        Some(&[99u8]),
        Some(&[76u8]),
        None,
        Some(&[89u8]),
        None,
        Some(&[83u8]),
        None,
        Some(&[40u8, 67u8, 41u8]),
        None,
        Some(&[60u8, 60u8]),
        None,
        Some(&[45u8]),
        Some(&[40u8, 82u8, 41u8]),
        None,
        Some(&[111u8]),
        Some(&[43u8, 45u8]),
        None,
        None,
        None,
        Some(&[117u8]),
        None,
        Some(&[46u8]),
        None,
        None,
        None,
        Some(&[62u8, 62u8]),
        None,
        None,
        None,
        Some(&[63u8]),
        Some(&[65u8]),
        Some(&[65u8]),
        Some(&[65u8]),
        Some(&[65u8]),
        Some(&[65u8]),
        Some(&[65u8]),
        Some(&[65u8, 69u8]),
        Some(&[67u8]),
        Some(&[69u8]),
        Some(&[69u8]),
        Some(&[69u8]),
        Some(&[69u8]),
        Some(&[73u8]),
        Some(&[73u8]),
        Some(&[73u8]),
        Some(&[73u8]),
        Some(&[68u8]),
        Some(&[78u8]),
        Some(&[79u8]),
        Some(&[79u8]),
        Some(&[79u8]),
        Some(&[79u8]),
        Some(&[79u8]),
        None,
        Some(&[79u8]),
        Some(&[85u8]),
        Some(&[85u8]),
        Some(&[85u8]),
        Some(&[85u8]),
        Some(&[89u8]),
        Some(&[84u8, 104u8]),
        Some(&[115u8, 115u8]),
        Some(&[97u8]),
        Some(&[97u8]),
        Some(&[97u8]),
        Some(&[97u8]),
        Some(&[97u8]),
        Some(&[97u8]),
        Some(&[97u8, 101u8]),
        Some(&[99u8]),
        Some(&[101u8]),
        Some(&[101u8]),
        Some(&[101u8]),
        Some(&[101u8]),
        Some(&[105u8]),
        Some(&[105u8]),
        Some(&[105u8]),
        Some(&[105u8]),
        Some(&[100u8]),
        Some(&[110u8]),
        Some(&[111u8]),
        Some(&[111u8]),
        Some(&[111u8]),
        Some(&[111u8]),
        Some(&[111u8]),
        None,
        Some(&[111u8]),
        Some(&[117u8]),
        Some(&[117u8]),
        Some(&[117u8]),
        Some(&[117u8]),
        Some(&[121u8]),
        None,
        Some(&[121u8]),
    ];
    t
}

/// The replacement that the codepoint table pairs with `cp`, if any.
pub open spec fn utf8_replacement(cp: u32) -> Option<Seq<u8>> {
    if exists|i: int| 0 <= i < utf8_table().len() && utf8_table()[i].0 == cp {
        Some(
            utf8_table()[choose|i: int| 0 <= i < utf8_table().len() && utf8_table()[i].0 == cp].1,
        )
    } else {
        None
    }
}

/// The replacement of a Latin-1 byte: `None` below `0x80` and for bytes that
/// the table leaves unmapped.
pub open spec fn iso8859_1_replacement(byte: u8) -> Option<Seq<u8>> {
    if byte < 0x80 {
        None
    } else {
        iso8859_1_table()[byte - 0x80]
    }
}

/// Look up the ASCII replacement of a codepoint by binary search in the
/// codepoint table. `None` for codepoints the table does not hold.
pub fn lookup_utf8(cp: u32) -> (r: Option<&'static [u8]>)
    ensures
        r is Some <==> utf8_replacement(cp) is Some,
        r matches Some(bytes) ==> bytes@ == utf8_replacement(cp).unwrap(),
{
    let t = utf_8_table();
    proof {
        lemma_utf8_table_ascending();
    }
    let mut lo: usize = 0;
    let mut hi: usize = t.len();
    while lo < hi
        invariant
            t@.len() == utf8_table().len(),
            forall|i: int|
                0 <= i < t@.len() ==> (#[trigger] t@[i]).0 == utf8_table()[i].0 && t@[i].1@
                    == utf8_table()[i].1,
            codepoints_ascending(utf8_table()),
            0 <= lo <= hi <= t@.len(),
            forall|i: int| 0 <= i < lo ==> utf8_table()[i].0 < cp,
            forall|i: int| hi <= i < t@.len() ==> utf8_table()[i].0 > cp,
        decreases hi - lo,
    {
        let mid = lo + (hi - lo) / 2;
        let (c, bytes) = t[mid];
        if c == cp {
            proof {
                let k = choose|i: int| 0 <= i < utf8_table().len() && utf8_table()[i].0 == cp;
                assert(utf8_table()[mid as int].0 == cp);
                if k < mid {
                    assert(utf8_table()[k].0 < utf8_table()[mid as int].0);
                } else if k > mid {
                    assert(utf8_table()[mid as int].0 < utf8_table()[k].0);
                }
            }
            return Some(bytes);
        } else if c < cp {
            proof {
                assert forall|i: int| 0 <= i < mid + 1 implies utf8_table()[i].0 < cp by {
                    if i < mid {
                        assert(utf8_table()[i].0 < utf8_table()[mid as int].0);
                    }
                }
            }
            lo = mid + 1;
        } else {
            proof {
                assert forall|i: int| mid <= i < t@.len() implies utf8_table()[i].0 > cp by {
                    if i > mid {
                        assert(utf8_table()[mid as int].0 < utf8_table()[i].0);
                    }
                }
            }
            hi = mid;
        }
    }
    None
}

/// Look up the ASCII replacement of a Latin-1 high byte. `None` for bytes
/// below `0x80` and for bytes the table leaves unmapped.
pub fn lookup_iso8859_1(byte: u8) -> (r: Option<&'static [u8]>)
    ensures
        r is Some <==> iso8859_1_replacement(byte) is Some,
        r matches Some(bytes) ==> bytes@ == iso8859_1_replacement(byte).unwrap(),
{
    if byte < 0x80 {
        return None;
    }
    let t = iso8859_1_entries();
    let e = t[(byte - 0x80) as usize];
    proof {
        let _ = t@[byte - 0x80];
    }
    e
}

} // verus!
