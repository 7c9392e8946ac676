//! The reserved prefixes of the dictionary keyspace.
//!
//! Several keyspaces share one dictionary tree, each under a prefix of two
//! bytes. Two of them may share a prefix only if their entries can be told
//! apart.

use vstd::prelude::*;

verus! {

/// Pinned fields, keyed by lobe.
pub const PIN: [u8; 2] = [0xFF, 0xF8];

/// Group rollups of ghosts, keyed by ghost and group.
pub const ROLLUP: [u8; 2] = [0xFF, 0xF9];

/// Rollups in the order of a metric, keyed by ghost, metric and group.
pub const METRIC_ORDER: [u8; 2] = [0xFF, 0xF6];

/// The gravity specification of a lobe.
pub const GRAVITY: [u8; 2] = [0xFF, 0xFA];

/// The searchable vector field of a lobe.
pub const VECTOR_FIELD: [u8; 2] = [0xFF, 0xF7];

/// The field names of a lobe.
pub const FIELD_REGISTRY: [u8; 2] = [0xFF, 0xFB];

/// The boot counter; its key is the two bytes alone.
pub const BOOT_EPOCH: [u8; 2] = [0xFF, 0xFC];

/// The user dictionary; its keys are longer than two bytes.
pub const DICT: [u8; 2] = [0xFF, 0xFC];

/// Pinned fields under their former prefix, read when a database is opened.
pub const PIN_LEGACY: [u8; 2] = [0xFF, 0xFD];

/// The metadata of ghosts, keyed by ghost.
pub const GHOST_META: [u8; 2] = [0xFF, 0xFD];

/// The write counters of lobes.
pub const GHOST_WRITES: [u8; 2] = [0xFF, 0xFE];

/// How the entries of a keyspace are told from others under the same prefix.
#[derive(Clone, Copy, Debug, PartialEq, Eq, Structural)]
pub enum Disambiguator {
    /// No other keyspace may have the prefix.
    Exclusive,
    /// The key is the prefix alone.
    ExactTwoByteKey,
    /// The key is longer than the prefix.
    LongerKey,
    /// The value's format byte.
    ValueFormatByte(u8),
}

/// A reserved keyspace.
#[derive(Clone, Copy, Debug)]
pub struct ReservedKeyspace {
    pub name: &'static str,
    pub prefix: [u8; 2],
    pub disambiguator: Disambiguator,
}

/// Entries under the two rules can be told apart.
pub open spec fn exclusive(a: Disambiguator, b: Disambiguator) -> bool {
    match (a, b) {
        (Disambiguator::ExactTwoByteKey, Disambiguator::LongerKey) => true,
        (Disambiguator::LongerKey, Disambiguator::ExactTwoByteKey) => true,
        (Disambiguator::ValueFormatByte(x), Disambiguator::ValueFormatByte(y)) => x != y,
        _ => false,
    }
}

/// Whether entries under the two rules can be told apart.
pub fn mutually_exclusive(a: Disambiguator, b: Disambiguator) -> (r: bool)
    ensures
        r == exclusive(a, b),
{
    match (a, b) {
        (Disambiguator::ExactTwoByteKey, Disambiguator::LongerKey) => true,
        (Disambiguator::LongerKey, Disambiguator::ExactTwoByteKey) => true,
        (Disambiguator::ValueFormatByte(x), Disambiguator::ValueFormatByte(y)) => x != y,
        _ => false,
    }
}

/// Two keyspaces have different prefixes or can be told apart.
pub open spec fn apart(a: ReservedKeyspace, b: ReservedKeyspace) -> bool {
    a.prefix@ != b.prefix@ || exclusive(a.disambiguator, b.disambiguator)
}

/// The entry under the prefix is one of a keyspace with this rule. A value tells
/// its format at its third byte.
pub open spec fn follows(d: Disambiguator, key: Seq<u8>, value: Seq<u8>) -> bool {
    match d {
        Disambiguator::Exclusive => true,
        Disambiguator::ExactTwoByteKey => key.len() == 2,
        Disambiguator::LongerKey => key.len() > 2,
        Disambiguator::ValueFormatByte(b) => value.len() > 2 && value[2] == b,
    }
}

/// The entry is one of the keyspace.
pub open spec fn belongs(k: ReservedKeyspace, key: Seq<u8>, value: Seq<u8>) -> bool {
    key.len() >= 2 && key.take(2) == k.prefix@ && follows(k.disambiguator, key, value)
}

/// No entry is one of two keyspaces that are apart.
pub proof fn law_entry_has_one_keyspace(
    a: ReservedKeyspace,
    b: ReservedKeyspace,
    key: Seq<u8>,
    value: Seq<u8>,
)
    requires
        apart(a, b),
    ensures
        !(belongs(a, key, value) && belongs(b, key, value)),
{
}

fn row(name: &'static str, prefix: [u8; 2], disambiguator: Disambiguator) -> (r: ReservedKeyspace)
    ensures
        r.name == name,
        r.prefix == prefix,
        r.disambiguator == disambiguator,
{
    ReservedKeyspace { name, prefix, disambiguator }
}

/// The keyspace has the name, the prefix and the rule.
pub open spec fn is_row(
    k: ReservedKeyspace,
    name: Seq<char>,
    prefix: [u8; 2],
    disambiguator: Disambiguator,
) -> bool {
    k.name@ == name && k.prefix == prefix && k.disambiguator == disambiguator
}

/// The table of the reserved keyspaces.
pub open spec fn is_table(t: Seq<ReservedKeyspace>) -> bool {
    &&& t.len() == 11
    &&& is_row(t[0], "PIN"@, PIN, Disambiguator::Exclusive)
    &&& is_row(t[1], "ROLLUP"@, ROLLUP, Disambiguator::Exclusive)
    &&& is_row(t[2], "METRIC_ORDER"@, METRIC_ORDER, Disambiguator::Exclusive)
    &&& is_row(t[3], "GRAVITY"@, GRAVITY, Disambiguator::Exclusive)
    &&& is_row(t[4], "VECTOR_FIELD"@, VECTOR_FIELD, Disambiguator::Exclusive)
    &&& is_row(t[5], "FIELD_REGISTRY"@, FIELD_REGISTRY, Disambiguator::Exclusive)
    &&& is_row(t[6], "BOOT_EPOCH"@, BOOT_EPOCH, Disambiguator::ExactTwoByteKey)
    &&& is_row(t[7], "DICT"@, DICT, Disambiguator::LongerKey)
    &&& is_row(t[8], "PIN_LEGACY"@, PIN_LEGACY, Disambiguator::ValueFormatByte(0x01))
    &&& is_row(t[9], "GHOST_META"@, GHOST_META, Disambiguator::ValueFormatByte(0x03))
    &&& is_row(t[10], "GHOST_WRITES"@, GHOST_WRITES, Disambiguator::Exclusive)
}

/// The whole table. No two of its keyspaces collide: those with the same
/// prefix can be told apart.
pub fn reserved() -> (r: Vec<ReservedKeyspace>)
    ensures
        is_table(r@),
        forall|i: int, j: int| 0 <= i < j < r@.len() ==> apart(#[trigger] r@[i], #[trigger] r@[j]),
{
    let r = vec![
        row("PIN", PIN, Disambiguator::Exclusive),
        row("ROLLUP", ROLLUP, Disambiguator::Exclusive),
        row("METRIC_ORDER", METRIC_ORDER, Disambiguator::Exclusive),
        row("GRAVITY", GRAVITY, Disambiguator::Exclusive),
        row("VECTOR_FIELD", VECTOR_FIELD, Disambiguator::Exclusive),
        row("FIELD_REGISTRY", FIELD_REGISTRY, Disambiguator::Exclusive),
        row("BOOT_EPOCH", BOOT_EPOCH, Disambiguator::ExactTwoByteKey),
        row("DICT", DICT, Disambiguator::LongerKey),
        row("PIN_LEGACY", PIN_LEGACY, Disambiguator::ValueFormatByte(0x01)),
        row("GHOST_META", GHOST_META, Disambiguator::ValueFormatByte(0x03)),
        row("GHOST_WRITES", GHOST_WRITES, Disambiguator::Exclusive),
    ];
    assert forall|i: int, j: int| 0 <= i < j < r@.len() implies apart(
        #[trigger] r@[i],
        #[trigger] r@[j],
    ) by {
        if i == 6 && j == 7 || i == 8 && j == 9 {
        } else {
            assert(r@[i].prefix@[1] != r@[j].prefix@[1]);
        }
    }
    r
}

} // verus!
