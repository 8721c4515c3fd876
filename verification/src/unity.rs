//! Readers for the plain records that Unity-style games keep in memory, and
//! the types that name what was found.

use crate::ieee::{F32Bits, F64Bits, HUNDRED_THOUSAND_BITS, THOUSAND_BITS, ZERO_BITS, le_u32};
use vstd::prelude::*;

verus! {

/// A value found in a game's memory.
#[derive(Debug, Clone)]
pub enum GameValue {
    Int32(i32),
    Int64(i64),
    Float32(F32Bits),
    Float64(F64Bits),
    String(String),
    Bytes(Vec<u8>),
}

/// A named value and where it was found.
#[derive(Debug, Clone)]
pub struct GameData {
    pub name: String,
    pub address: u64,
    pub value: GameValue,
}

/// The byte patterns by which a game's health and position records are
/// found.
#[derive(Debug, Clone)]
pub struct GameSignature {
    pub game_name: String,
    pub package_name: String,
    pub hp_pattern: Vec<u8>,
    pub hp_mask: Vec<bool>,
    pub hp_offset: i64,
    pub position_pattern: Vec<u8>,
    pub position_mask: Vec<bool>,
    pub position_offset: i64,
}

/// Namespace of the record readers.
pub struct GameDataStructures;

/// The single-precision value whose bytes start at `at`.
pub open spec fn word_at(data: Seq<u8>, at: int) -> F32Bits {
    F32Bits { bits: le_u32(data[at], data[at + 1], data[at + 2], data[at + 3]) as u32 }
}

/// Health and its maximum make sense: `0 <= hp <= max_hp` and
/// `0 < max_hp < 100000`.
pub open spec fn plausible_stats(hp: F32Bits, max_hp: F32Bits) -> bool {
    &&& (F32Bits { bits: ZERO_BITS }).at_most(hp)
    &&& hp.at_most(max_hp)
    &&& (F32Bits { bits: ZERO_BITS }).below(max_hp)
    &&& max_hp.below(F32Bits { bits: HUNDRED_THOUSAND_BITS })
}

/// A coordinate makes sense: it is finite and less than 100000 in absolute
/// value.
pub open spec fn plausible_coordinate(v: F32Bits) -> bool {
    v.finite() && v.positive().below(F32Bits { bits: HUNDRED_THOUSAND_BITS })
}

/// A cooldown makes sense: it is finite, not negative and less than 1000.
pub open spec fn plausible_cooldown(v: F32Bits) -> bool {
    v.finite() && (F32Bits { bits: ZERO_BITS }).at_most(v) && v.below(
        F32Bits { bits: THOUSAND_BITS },
    )
}

/// The plausible cooldowns among the first `n` words of `data`, in order.
pub open spec fn cooldowns(data: Seq<u8>, n: int) -> Seq<F32Bits>
    decreases n,
{
    if n <= 0 {
        Seq::empty()
    } else if plausible_cooldown(word_at(data, 4 * (n - 1))) {
        cooldowns(data, n - 1).push(word_at(data, 4 * (n - 1)))
    } else {
        cooldowns(data, n - 1)
    }
}

impl GameDataStructures {
    /// Reads health, maximum health, mana and maximum mana from the first
    /// sixteen bytes, four single-precision values. Nothing is returned for
    /// fewer bytes or for health values that make no sense.
    pub fn parse_unity_stats(data: &[u8]) -> (out: Option<(F32Bits, F32Bits, F32Bits, F32Bits)>)
        ensures
            out == (if data@.len() >= 16 && plausible_stats(word_at(data@, 0), word_at(data@, 4)) {
                Some((word_at(data@, 0), word_at(data@, 4), word_at(data@, 8), word_at(data@, 12)))
            } else {
                None
            }),
    {
        if data.len() < 16 {
            return None;
        }
        let hp = F32Bits::read_le(data, 0);
        let max_hp = F32Bits::read_le(data, 4);
        let mp = F32Bits::read_le(data, 8);
        let max_mp = F32Bits::read_le(data, 12);
        let zero = F32Bits { bits: ZERO_BITS };
        let cap = F32Bits { bits: HUNDRED_THOUSAND_BITS };
        if hp.ge(&zero) && hp.le(&max_hp) && max_hp.gt(&zero) && max_hp.lt(&cap) {
            Some((hp, max_hp, mp, max_mp))
        } else {
            None
        }
    }

    /// Reads a position from the first twelve bytes, three single-precision
    /// values. Nothing is returned for fewer bytes or for a coordinate that
    /// makes no sense.
    pub fn parse_position(data: &[u8]) -> (out: Option<(F32Bits, F32Bits, F32Bits)>)
        ensures
            out == (if data@.len() >= 12 && plausible_coordinate(word_at(data@, 0))
                && plausible_coordinate(word_at(data@, 4)) && plausible_coordinate(
                word_at(data@, 8),
            ) {
                Some((word_at(data@, 0), word_at(data@, 4), word_at(data@, 8)))
            } else {
                None
            }),
    {
        if data.len() < 12 {
            return None;
        }
        let x = F32Bits::read_le(data, 0);
        let y = F32Bits::read_le(data, 4);
        let z = F32Bits::read_le(data, 8);
        let cap = F32Bits { bits: HUNDRED_THOUSAND_BITS };
        if x.is_finite() && y.is_finite() && z.is_finite() && x.abs().lt(&cap) && y.abs().lt(&cap)
            && z.abs().lt(&cap) {
            Some((x, y, z))
        } else {
            None
        }
    }

    /// Reads up to `skill_count` cooldowns, one single-precision value each,
    /// as far as the data reaches, and keeps those that make sense.
    pub fn parse_skill_cooldowns(data: &[u8], skill_count: usize) -> (out: Vec<F32Bits>)
        ensures
            out@ == cooldowns(
                data@,
                if skill_count <= data@.len() / 4 {
                    skill_count as int
                } else {
                    data@.len() as int / 4
                },
            ),
    {
        let total: usize = data.len();
        let words: usize = total / 4;
        let n: usize = if skill_count <= words {
            skill_count
        } else {
            words
        };
        let zero = F32Bits { bits: ZERO_BITS };
        let cap = F32Bits { bits: THOUSAND_BITS };
        let mut out: Vec<F32Bits> = Vec::new();
        let mut i: usize = 0;
        while i < n
            invariant
                total == data@.len(),
                i <= n <= total / 4,
                zero.bits == ZERO_BITS,
                cap.bits == THOUSAND_BITS,
                out@ == cooldowns(data@, i as int),
            decreases n - i,
        {
            let cd = F32Bits::read_le(data, 4 * i);
            if cd.is_finite() && cd.ge(&zero) && cd.lt(&cap) {
                out.push(cd);
            }
            i = i + 1;
        }
        out
    }
}

impl GameSignature {
    /// A signature for a Unity game of which nothing is known: patterns of
    /// eight and twelve zero bytes in which every byte is a wildcard.
    pub fn generic_unity() -> (sig: GameSignature)
        ensures
            sig.game_name@ == "Generic Unity Game"@,
            sig.package_name@.len() == 0,
            sig.hp_pattern@ == Seq::new(8, |i: int| 0u8),
            sig.hp_mask@ == Seq::new(8, |i: int| false),
            sig.hp_offset == 0,
            sig.position_pattern@ == Seq::new(12, |i: int| 0u8),
            sig.position_mask@ == Seq::new(12, |i: int| false),
            sig.position_offset == 0,
    {
        let mut pattern: Vec<u8> = Vec::new();
        let mut mask: Vec<bool> = Vec::new();
        let mut i: usize = 0;
        while i < 12
            invariant
                i <= 12,
                pattern@.len() == i,
                mask@.len() == i,
                forall|j: int| 0 <= j < i ==> pattern@[j] == 0 && !mask@[j],
            decreases 12 - i,
        {
            pattern.push(0);
            mask.push(false);
            i = i + 1;
        }
        let mut hp_pattern: Vec<u8> = Vec::new();
        let mut hp_mask: Vec<bool> = Vec::new();
        let mut k: usize = 0;
        while k < 8
            invariant
                k <= 8,
                hp_pattern@.len() == k,
                hp_mask@.len() == k,
                forall|j: int| 0 <= j < k ==> hp_pattern@[j] == 0 && !hp_mask@[j],
            decreases 8 - k,
        {
            hp_pattern.push(0);
            hp_mask.push(false);
            k = k + 1;
        }
        proof {
            assert(hp_pattern@ =~= Seq::new(8, |i: int| 0u8));
            assert(hp_mask@ =~= Seq::new(8, |i: int| false));
            assert(pattern@ =~= Seq::new(12, |i: int| 0u8));
            assert(mask@ =~= Seq::new(12, |i: int| false));
        }
        GameSignature {
            game_name: "Generic Unity Game".to_owned(),
            package_name: String::new(),
            hp_pattern,
            hp_mask,
            hp_offset: 0,
            position_pattern: pattern,
            position_mask: mask,
            position_offset: 0,
        }
    }
}

} // verus!
