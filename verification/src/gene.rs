//! Genes: single-byte genome units, their bit-field decoding, and their
//! 8-character binary text form.
//!
//! Decoding priority (most significant bit first):
//! 1. bit 7 set: a `Connection` carrying a 6-bit node index (bits 0-5) and
//!    an inversion flag (bit 6);
//! 2. else bit 6 set: an `Internal` node whose bias is the 6-bit value of
//!    bits 0-5 over 32;
//! 3. else bit 5 selects `Action` (set) or `Sense` (clear), indexed by the
//!    5-bit value of bits 0-4 modulo the number of variants of that kind.
//!
//! The variant orders below are part of the genome format: changing them
//! changes the meaning of every serialized genome.

use vstd::prelude::*;

use crate::rat::Rat;

verus! {

/// Sensory channels an agent can read. The order is fixed by the genome
/// format.
#[derive(Clone, Copy, PartialEq, Eq, Structural, Debug)]
pub enum SenseType {
    Blocked,
    Agent,
    AgentDensity,
    Food,
    FoodDensity,
    Direction,
}

/// Actions an agent can take. The order is fixed by the genome format.
#[derive(Clone, Copy, PartialEq, Eq, Structural, Debug)]
pub enum ActionType {
    Move,
    TurnLeft,
    TurnRight,
    Kill,
    ProduceFood,
}

/// Number of `SenseType` variants.
pub const SENSE_TYPE_COUNT: u8 = 6;

/// Number of `ActionType` variants.
pub const ACTION_TYPE_COUNT: u8 = 5;

impl SenseType {
    /// The sense at position `i` of the fixed variant order.
    pub open spec fn spec_from_index(i: u8) -> SenseType {
        if i == 0 {
            SenseType::Blocked
        } else if i == 1 {
            SenseType::Agent
        } else if i == 2 {
            SenseType::AgentDensity
        } else if i == 3 {
            SenseType::Food
        } else if i == 4 {
            SenseType::FoodDensity
        } else {
            SenseType::Direction
        }
    }

    pub fn from_index(i: u8) -> (s: SenseType)
        requires
            i < SENSE_TYPE_COUNT,
        ensures
            s == SenseType::spec_from_index(i),
    {
        if i == 0 {
            SenseType::Blocked
        } else if i == 1 {
            SenseType::Agent
        } else if i == 2 {
            SenseType::AgentDensity
        } else if i == 3 {
            SenseType::Food
        } else if i == 4 {
            SenseType::FoodDensity
        } else {
            SenseType::Direction
        }
    }
}

impl ActionType {
    /// The action at position `i` of the fixed variant order.
    pub open spec fn spec_from_index(i: u8) -> ActionType {
        if i == 0 {
            ActionType::Move
        } else if i == 1 {
            ActionType::TurnLeft
        } else if i == 2 {
            ActionType::TurnRight
        } else if i == 3 {
            ActionType::Kill
        } else {
            ActionType::ProduceFood
        }
    }

    pub fn from_index(i: u8) -> (a: ActionType)
        requires
            i < ACTION_TYPE_COUNT,
        ensures
            a == ActionType::spec_from_index(i),
    {
        if i == 0 {
            ActionType::Move
        } else if i == 1 {
            ActionType::TurnLeft
        } else if i == 2 {
            ActionType::TurnRight
        } else if i == 3 {
            ActionType::Kill
        } else {
            ActionType::ProduceFood
        }
    }
}

/// What one gene decodes to: a node of one of the three kinds, or one half
/// of a connection (a 6-bit endpoint index and an inversion flag).
#[derive(Clone, Copy, PartialEq, Eq, Structural, Debug)]
pub enum GeneParse {
    Sense(SenseType),
    Action(ActionType),
    Internal(Rat),
    Connection(u8, bool),
}

/// Error for text that is not a well-formed genome encoding.
#[derive(Clone, Copy, PartialEq, Eq, Structural, Debug)]
pub struct FormatError;

/// True when bit `index` (0 = least significant) of `data` is set.
pub open spec fn spec_bit(data: u8, index: usize) -> bool {
    data & (1u8 << index) != 0
}

/// A mask of the `bits` least significant bits.
pub open spec fn spec_low_mask(bits: usize) -> u8 {
    if bits >= 8 {
        0xffu8
    } else {
        ((1u16 << bits) - 1) as u8
    }
}

/// The `bits` least significant bits of `data`.
pub open spec fn spec_low_bits(data: u8, bits: usize) -> u8 {
    data & spec_low_mask(bits)
}

/// The bit field `start..end` of `data`, shifted down to the low bits.
pub open spec fn spec_bit_range(data: u8, start: usize, end: usize) -> u8 {
    spec_low_bits(data >> start, (end - start) as usize)
}

/// The decoding of one gene byte, in the priority order of the module
/// documentation.
pub open spec fn spec_parse(b: u8) -> GeneParse {
    if spec_bit(b, 7) {
        GeneParse::Connection(spec_bit_range(b, 0, 6), spec_bit(b, 6))
    } else if spec_bit(b, 6) {
        GeneParse::Internal(Rat { num: spec_bit_range(b, 0, 6) as i64, den: 32 })
    } else if spec_bit(b, 5) {
        GeneParse::Action(
            ActionType::spec_from_index(spec_bit_range(b, 0, 5) % ACTION_TYPE_COUNT),
        )
    } else {
        GeneParse::Sense(SenseType::spec_from_index(spec_bit_range(b, 0, 5) % SENSE_TYPE_COUNT))
    }
}

/// The 8-character binary text form of a gene byte, most significant bit
/// first.
pub open spec fn spec_gene_chars(b: u8) -> Seq<char> {
    Seq::new(8, |i: int| if spec_bit(b, (7 - i) as usize) { '1' } else { '0' })
}

/// The value of a sequence of binary digit characters, most significant
/// first.
pub open spec fn spec_bin_val(s: Seq<char>) -> nat
    decreases s.len(),
{
    if s.len() == 0 {
        0
    } else {
        2 * spec_bin_val(s.drop_last()) + (if s.last() == '1' {
            1nat
        } else {
            0nat
        })
    }
}

/// Whether every character of `s` is a binary digit.
pub open spec fn spec_is_bin(s: Seq<char>) -> bool {
    forall|i: int| 0 <= i < s.len() ==> s[i] == '1' || s[i] == '0'
}

/// The gene byte a piece of text stands for: defined exactly for 8
/// binary digit characters.
pub open spec fn spec_gene_of_text(s: Seq<char>) -> Option<u8> {
    if s.len() == 8 && spec_is_bin(s) {
        Some(spec_bin_val(s) as u8)
    } else {
        None
    }
}

/// The value of the first `k` encoded characters is the byte shifted down
/// by the remaining bit count.
proof fn lemma_gene_chars_val(b: u8, k: int)
    requires
        0 <= k <= 8,
    ensures
        spec_bin_val(spec_gene_chars(b).subrange(0, k)) == ((b >> ((8 - k) as usize)) as nat),
    decreases k,
{
    if k == 0 {
        assert(spec_gene_chars(b).subrange(0, 0) =~= Seq::<char>::empty());
        assert((b >> 8usize) == 0) by (bit_vector);
    } else {
        lemma_gene_chars_val(b, k - 1);
        let s = spec_gene_chars(b).subrange(0, k);
        assert(s.drop_last() =~= spec_gene_chars(b).subrange(0, k - 1));
        let j = (8 - k) as usize;
        assert(j < 8 ==> 2 * ((b >> ((j + 1) as usize)) as nat) + (if spec_bit(b, j) {
            1nat
        } else {
            0nat
        }) == (b >> j) as nat) by (bit_vector);
    }
}

/// Round trip: the text encoding of every gene byte decodes back to
/// exactly that byte.
pub proof fn lemma_gene_text_round_trip(b: u8)
    ensures
        spec_gene_of_text(spec_gene_chars(b)) == Some(b),
{
    lemma_gene_chars_val(b, 8);
    assert(spec_gene_chars(b).subrange(0, 8) =~= spec_gene_chars(b));
    assert((b >> 0usize) == b) by (bit_vector);
}

/// One gene: a single unsigned 8-bit value.
#[derive(Clone, Copy, PartialEq, Eq, Structural, Debug)]
pub struct Gene(pub u8);

impl Gene {
    pub fn new(data: u8) -> (g: Gene)
        ensures
            g.0 == data,
    {
        Gene(data)
    }

    /// Whether a single bit of `data` is set, counting from the least
    /// significant bit.
    pub fn get_bit(data: u8, index: usize) -> (r: bool)
        requires
            index < 8,
        ensures
            r == spec_bit(data, index),
    {
        data & (1u8 << index) != 0
    }

    /// The `bits` least significant bits of `data`.
    pub fn get_ls_bits(data: u8, bits: usize) -> (r: u8)
        requires
            bits <= 8,
        ensures
            r == spec_low_bits(data, bits),
    {
        let mut d: u8 = 0;
        let mut i: usize = 0;
        proof {
            assert((data & spec_low_mask(0)) == 0u8) by (bit_vector);
        }
        while i < bits
            invariant
                i <= bits,
                bits <= 8,
                d == spec_low_bits(data, i),
            decreases bits - i,
        {
            proof {
                assert(i < 8 ==> ((data & spec_low_mask(i)) as u16) + (if spec_bit(data, i) {
                    (1u8 << i) as u16
                } else {
                    0u16
                }) == ((data & spec_low_mask((i + 1) as usize)) as u16)) by (bit_vector);
                assert(i < 8 ==> ((data & spec_low_mask((i + 1) as usize)) as u16) < 256)
                    by (bit_vector);
            }
            if Gene::get_bit(data, i) {
                d = d + (1u8 << i);
            }
            i = i + 1;
        }
        d
    }

    /// The bit field selected by `range`, shifted down to the low bits.
    pub fn get_bit_range(data: u8, range: core::ops::Range<usize>) -> (r: u8)
        requires
            range.start < 8,
            range.start <= range.end <= 8,
        ensures
            r == spec_bit_range(data, range.start, range.end),
    {
        let v = data >> range.start;
        Gene::get_ls_bits(v, range.end - range.start)
    }

    /// Decodes this gene into a node or connection instruction. Total: every
    /// byte value decodes to exactly one instruction.
    pub fn parse(&self) -> (p: GeneParse)
        ensures
            p == spec_parse(self.0),
    {
        if Gene::get_bit(self.0, 7) {
            GeneParse::Connection(
                Gene::get_bit_range(self.0, 0..6),
                Gene::get_bit(self.0, 6),
            )
        } else if Gene::get_bit(self.0, 6) {
            let bits = Gene::get_bit_range(self.0, 0..6);
            GeneParse::Internal(Rat::new(bits as i64, 32))
        } else {
            let index = Gene::get_bit_range(self.0, 0..5);
            if Gene::get_bit(self.0, 5) {
                GeneParse::Action(ActionType::from_index(index % ACTION_TYPE_COUNT))
            } else {
                GeneParse::Sense(SenseType::from_index(index % SENSE_TYPE_COUNT))
            }
        }
    }

    /// Flips one bit of the gene in place.
    pub fn flip_bit(&mut self, bit: usize)
        requires
            bit < 8,
        ensures
            final(self).0 == old(self).0 ^ (1u8 << bit),
    {
        self.0 = self.0 ^ (1u8 << bit);
    }

    /// Flips one uniformly drawn bit of the gene.
    pub fn mutate(&mut self, rng: &mut rand::rngs::StdRng)
        ensures
            exists|b: usize| b < 8 && final(self).0 == (old(self).0 ^ (1u8 << b)),
    {
        let bit = crate::rng::rng_below(rng, 8) as usize;
        self.flip_bit(bit);
        proof {
            assert(bit < 8 && self.0 == (old(self).0 ^ (1u8 << bit)));
        }
    }

    /// The 8-character binary text form of this gene, most significant bit
    /// first.
    pub fn encode_text(&self) -> (s: String)
        ensures
            s@ == spec_gene_chars(self.0),
    {
        let mut s = String::new();
        let mut i: usize = 0;
        proof {
            reveal_strlit("0");
            reveal_strlit("1");
            assert(s@ =~= spec_gene_chars(self.0).subrange(0, 0));
        }
        while i < 8
            invariant
                i <= 8,
                s@ == spec_gene_chars(self.0).subrange(0, i as int),
            decreases 8 - i,
        {
            proof {
                reveal_strlit("0");
                reveal_strlit("1");
            }
            if Gene::get_bit(self.0, 7 - i) {
                s.append("1");
            } else {
                s.append("0");
            }
            proof {
                assert(s@ =~= spec_gene_chars(self.0).subrange(0, i + 1));
            }
            i = i + 1;
        }
        proof {
            assert(spec_gene_chars(self.0).subrange(0, 8) =~= spec_gene_chars(self.0));
        }
        s
    }

    /// Parses an 8-character binary string into a gene. Fails on any other
    /// length and on any character besides `0` and `1`.
    pub fn from_string(data: &str) -> (r: Result<Gene, FormatError>)
        ensures
            r is Ok <==> spec_gene_of_text(data@) is Some,
            r is Ok ==> Some(r->Ok_0.0) == spec_gene_of_text(data@),
    {
        let n = data.unicode_len();
        if n != 8 {
            return Err(FormatError);
        }
        let mut v: u8 = 0;
        let mut i: usize = 0;
        proof {
            assert(data@.subrange(0, 0) =~= Seq::<char>::empty());
            assert(0u16 < (1u16 << 0usize)) by (bit_vector);
        }
        while i < 8
            invariant
                i <= 8,
                data@.len() == 8,
                spec_is_bin(data@.subrange(0, i as int)),
                v as nat == spec_bin_val(data@.subrange(0, i as int)),
                (v as u16) < (1u16 << i),
            decreases 8 - i,
        {
            let c = data.get_char(i);
            proof {
                assert(data@.subrange(0, i + 1).drop_last() =~= data@.subrange(0, i as int));
                assert(data@.subrange(0, i + 1).last() == data@[i as int]);
                assert(i < 8 ==> ((v as u16) < (1u16 << i) ==> 2 * (v as u16) + 1 < (1u16 << (i
                    + 1)) && 2 * (v as u16) + 1 < 256)) by (bit_vector);
            }
            if c == '1' {
                v = 2 * v + 1;
            } else if c == '0' {
                v = 2 * v;
            } else {
                proof {
                    assert(!spec_is_bin(data@));
                }
                return Err(FormatError);
            }
            i = i + 1;
        }
        proof {
            assert(data@.subrange(0, 8) =~= data@);
        }
        Ok(Gene(v))
    }

    /// Parses an 8-character binary string into a gene; the textual decode
    /// direction of the genome format.
    pub fn decode_text(data: &str) -> (r: Result<Gene, FormatError>)
        ensures
            r is Ok <==> spec_gene_of_text(data@) is Some,
            r is Ok ==> Some(r->Ok_0.0) == spec_gene_of_text(data@),
    {
        Gene::from_string(data)
    }
}

} // verus!
