//! Genomes: ordered sequences of genes and their textual form.
//!
//! The textual form is the genes' 8-character binary encodings joined by a
//! delimiter (a single space by default), with no trailing delimiter.

use vstd::prelude::*;

use crate::gene::{spec_gene_chars, spec_gene_of_text, FormatError, Gene};
use crate::rng::rng_below;

verus! {

/// Share of genes touched by one mutation round, in percent. A round is
/// structural (one gene added or removed) with this probability, and
/// otherwise flips one bit in this share of the genome, rounded to the
/// nearest gene.
pub const MUTATION_PERCENT: u64 = 15;

/// The textual form of a gene sequence: encodings joined by `delim`.
pub open spec fn spec_genome_text(genes: Seq<Gene>, delim: Seq<char>) -> Seq<char>
    decreases genes.len(),
{
    if genes.len() == 0 {
        Seq::empty()
    } else if genes.len() == 1 {
        spec_gene_chars(genes[0].0)
    } else {
        spec_gene_chars(genes[0].0) + delim + spec_genome_text(genes.drop_first(), delim)
    }
}

/// The index of the first space in `s`, or `s.len()` when there is none.
pub open spec fn spec_first_space(s: Seq<char>) -> nat
    decreases s.len(),
{
    if s.len() == 0 {
        0
    } else if s[0] == ' ' {
        0
    } else {
        1 + spec_first_space(s.drop_first())
    }
}

/// The genes encoded by a non-empty space-delimited token list; `None` when
/// any token is not an 8-character binary string.
pub open spec fn spec_tokens_of(s: Seq<char>) -> Option<Seq<Gene>>
    decreases s.len(),
{
    let k = spec_first_space(s);
    if k >= s.len() {
        match spec_gene_of_text(s) {
            Some(b) => Some(seq![Gene(b)]),
            None => None,
        }
    } else {
        match spec_gene_of_text(s.subrange(0, k as int)) {
            Some(b) => match spec_tokens_of(s.subrange(k as int + 1, s.len() as int)) {
                Some(rest) => Some(seq![Gene(b)] + rest),
                None => None,
            },
            None => None,
        }
    }
}

/// The genes a piece of text stands for. Empty text is the empty genome;
/// otherwise every space-delimited token must be a valid gene encoding.
pub open spec fn spec_genome_of_text(s: Seq<char>) -> Option<Seq<Gene>> {
    if s.len() == 0 {
        Some(Seq::empty())
    } else {
        spec_tokens_of(s)
    }
}

/// `spec_first_space` is the unique boundary: no space before it, a space
/// at it unless it is the length.
proof fn lemma_first_space_at(s: Seq<char>, k: int)
    requires
        0 <= k <= s.len(),
        forall|i: int| 0 <= i < k ==> s[i] != ' ',
        k < s.len() ==> s[k] == ' ',
    ensures
        spec_first_space(s) == k,
    decreases s.len(),
{
    if s.len() == 0 {
    } else if s[0] == ' ' {
    } else {
        let t = s.drop_first();
        assert(forall|i: int| 0 <= i < k - 1 ==> t[i] == s[i + 1] && t[i] != ' ');
        lemma_first_space_at(t, k - 1);
    }
}

/// The text of a non-empty genome is at least one gene encoding long.
proof fn lemma_genome_text_len(genes: Seq<Gene>, delim: Seq<char>)
    requires
        genes.len() >= 1,
    ensures
        spec_genome_text(genes, delim).len() >= 8,
    decreases genes.len(),
{
    if genes.len() > 1 {
        lemma_genome_text_len(genes.drop_first(), delim);
    }
}

/// Round trip at the genome level: the textual form of any gene sequence
/// parses back to exactly that sequence.
pub proof fn lemma_genome_text_round_trip(genes: Seq<Gene>)
    ensures
        spec_genome_of_text(spec_genome_text(genes, seq![' '])) == Some(genes),
    decreases genes.len(),
{
    let text = spec_genome_text(genes, seq![' ']);
    if genes.len() == 0 {
        assert(genes =~= Seq::<Gene>::empty());
    } else if genes.len() == 1 {
        let chars = spec_gene_chars(genes[0].0);
        crate::gene::lemma_gene_text_round_trip(genes[0].0);
        assert(forall|i: int| 0 <= i < 8 ==> (#[trigger] chars[i]) != ' ');
        lemma_first_space_at(text, 8);
        assert(genes[0] == Gene(genes[0].0));
        assert(seq![genes[0]] =~= genes);
    } else {
        let head = spec_gene_chars(genes[0].0);
        let rest_text = spec_genome_text(genes.drop_first(), seq![' ']);
        lemma_genome_text_round_trip(genes.drop_first());
        lemma_genome_text_len(genes.drop_first(), seq![' ']);
        crate::gene::lemma_gene_text_round_trip(genes[0].0);
        assert(text == head + seq![' '] + rest_text);
        assert(text.len() == 9 + rest_text.len());
        assert(forall|i: int| 0 <= i < 8 ==> (#[trigger] head[i]) != ' ');
        assert(forall|i: int| 0 <= i < 8 ==> text[i] == head[i]);
        assert(text[8] == ' ');
        lemma_first_space_at(text, 8);
        assert(text.subrange(0, 8) =~= head);
        assert(text.subrange(9, text.len() as int) =~= rest_text);
        assert(genes[0] == Gene(genes[0].0));
        assert(seq![genes[0]] + genes.drop_first() =~= genes);
    }
}

/// The genes with bit `bit` of the gene at `i` flipped.
pub open spec fn spec_flip_gene(genes: Seq<Gene>, i: int, bit: usize) -> Seq<Gene> {
    genes.update(i, Gene(genes[i].0 ^ (1u8 << bit)))
}

/// Whether `g2` is `g1` after at most `k` single-bit gene flips; every
/// gene no flip touches is preserved.
pub open spec fn spec_within_flips(g1: Seq<Gene>, g2: Seq<Gene>, k: nat) -> bool
    decreases k,
{
    g2 == g1 || (k > 0 && exists|i: int, bit: usize|
        0 <= i < g1.len() && bit < 8 && spec_within_flips(
            g1,
            spec_flip_gene(g2, i, bit),
            (k - 1) as nat,
        ))
}

/// Number of point mutations in one round: the mutation share of the
/// genome, rounded to the nearest gene.
pub open spec fn spec_mutation_count(len: nat) -> nat {
    (len * (MUTATION_PERCENT as nat) + 50) / 100
}

/// How one mutation round may relate a genome to its result: exactly one
/// gene appended, exactly one gene removed, or the same gene sequence
/// with at most the rounded mutation share of single-bit flips.
pub open spec fn spec_mutation_of(g1: Seq<Gene>, g2: Seq<Gene>) -> bool {
    ||| exists|g: Gene| g2 == g1.push(g)
    ||| exists|i: int| 0 <= i < g1.len() && g2 == g1.remove(i)
    ||| (g2.len() == g1.len() && spec_within_flips(g1, g2, spec_mutation_count(g1.len())))
}

/// Flipping the same bit of the same gene twice restores the genes.
proof fn lemma_flip_gene_involution(genes: Seq<Gene>, i: int, bit: usize)
    requires
        0 <= i < genes.len(),
        bit < 8,
    ensures
        spec_flip_gene(spec_flip_gene(genes, i, bit), i, bit) == genes,
{
    let m = spec_flip_gene(genes, i, bit);
    let b0 = genes[i].0;
    assert(bit < 8 ==> ((b0 ^ (1u8 << bit)) ^ (1u8 << bit)) == b0) by (bit_vector);
    assert(genes[i] == Gene(genes[i].0));
    assert(spec_flip_gene(m, i, bit) =~= genes);
}

/// Genome-level text operations. A genome is an ordered `Vec<Gene>`; this
/// type groups the functions that move one between gene and text form.
pub struct Genome;

impl Genome {
    /// The genome's textual form with a single-space delimiter.
    pub fn get(genome: Vec<Gene>) -> (r: String)
        ensures
            r@ == spec_genome_text(genome@, seq![' ']),
    {
        proof {
            reveal_strlit(" ");
        }
        let r = Genome::get_with_delim(genome, " ");
        proof {
            assert(" "@ =~= seq![' ']);
        }
        r
    }

    /// The genome's textual form: gene encodings joined by `delim`, with no
    /// trailing delimiter.
    pub fn get_with_delim(genome: Vec<Gene>, delim: &str) -> (r: String)
        ensures
            r@ == spec_genome_text(genome@, delim@),
    {
        let n = genome.len();
        let mut s = String::new();
        let mut i: usize = 0;
        proof {
            assert(genome@.skip(0) =~= genome@);
            assert(s@ + spec_genome_text(genome@, delim@) =~= spec_genome_text(genome@, delim@));
        }
        while i < n
            invariant
                i <= n,
                n == genome@.len(),
                spec_genome_text(genome@, delim@) == s@ + spec_genome_text(
                    genome@.skip(i as int),
                    delim@,
                ),
            decreases n - i,
        {
            let ghost s0 = s@;
            let ghost rest = genome@.skip(i as int);
            let t = genome[i].encode_text();
            s.append(t.as_str());
            proof {
                assert(rest[0] == genome@[i as int]);
            }
            if i + 1 < n {
                s.append(delim);
                proof {
                    assert(rest.drop_first() =~= genome@.skip(i + 1));
                    assert(rest.len() >= 2);
                    assert(spec_genome_text(rest, delim@) == spec_gene_chars(rest[0].0) + delim@
                        + spec_genome_text(rest.drop_first(), delim@));
                    assert(s@ + spec_genome_text(genome@.skip(i + 1), delim@) =~= s0
                        + spec_genome_text(rest, delim@));
                }
            } else {
                proof {
                    assert(rest.len() == 1);
                    assert(spec_genome_text(rest, delim@) == spec_gene_chars(rest[0].0));
                    assert(genome@.skip(i + 1) =~= Seq::<Gene>::empty());
                    assert(s@ + spec_genome_text(genome@.skip(i + 1), delim@) =~= s0
                        + spec_genome_text(rest, delim@));
                }
            }
            i = i + 1;
        }
        proof {
            assert(genome@.skip(n as int) =~= Seq::<Gene>::empty());
            assert(s@ + spec_genome_text(genome@.skip(n as int), delim@) =~= s@);
        }
        s
    }

    /// Parses a whole genome from its textual form. The empty string is the
    /// empty genome; any malformed token fails the parse.
    pub fn from_string(data: &str) -> (r: Result<Vec<Gene>, FormatError>)
        ensures
            r is Ok <==> spec_genome_of_text(data@) is Some,
            r is Ok ==> Some(r->Ok_0@) == spec_genome_of_text(data@),
    {
        let len = data.unicode_len();
        let mut genes: Vec<Gene> = Vec::new();
        if len == 0 {
            proof {
                assert(genes@ =~= Seq::<Gene>::empty());
            }
            return Ok(genes);
        }
        let mut start: usize = 0;
        proof {
            assert(data@.subrange(0, len as int) =~= data@);
        }
        loop
            invariant
                start <= len,
                len == data@.len(),
                len > 0,
                spec_tokens_of(data@) is Some <==> spec_tokens_of(
                    data@.subrange(start as int, len as int),
                ) is Some,
                spec_tokens_of(data@) is Some ==> spec_tokens_of(data@) == Some(
                    genes@ + spec_tokens_of(data@.subrange(start as int, len as int))->Some_0,
                ),
            decreases len - start,
        {
            let ghost suffix = data@.subrange(start as int, len as int);
            let mut i: usize = start;
            while i < len
                invariant
                    start <= i <= len,
                    len == data@.len(),
                    forall|j: int| start <= j < i ==> data@[j] != ' ',
                ensures
                    start <= i <= len,
                    forall|j: int| start <= j < i ==> data@[j] != ' ',
                    i < len ==> data@[i as int] == ' ',
                decreases len - i,
            {
                if data.get_char(i) == ' ' {
                    break ;
                }
                i = i + 1;
            }
            proof {
                assert(forall|j: int| 0 <= j < suffix.len() ==> suffix[j] == data@[start + j]);
                lemma_first_space_at(suffix, i - start);
            }
            let ghost k = (i - start) as int;
            let tok = data.substring_char(start, i);
            proof {
                assert(tok@ =~= suffix.subrange(0, k));
                if k == suffix.len() {
                    assert(tok@ =~= suffix);
                }
            }
            match Gene::from_string(tok) {
                Err(..) => {
                    proof {
                        assert(spec_tokens_of(suffix) is None);
                    }
                    return Err(FormatError);
                },
                Ok(g) => {
                    let ghost genes0 = genes@;
                    genes.push(g);
                    if i == len {
                        proof {
                            assert(spec_tokens_of(suffix) == Some(seq![g]));
                            assert(genes0 + seq![g] =~= genes@);
                        }
                        return Ok(genes);
                    }
                    proof {
                        let rest = suffix.subrange(k + 1, suffix.len() as int);
                        assert(rest =~= data@.subrange(i + 1, len as int));
                        assert(spec_tokens_of(suffix) is Some <==> spec_tokens_of(rest) is Some);
                        if spec_tokens_of(rest) is Some {
                            assert(spec_tokens_of(suffix) == Some(
                                seq![g] + spec_tokens_of(rest)->Some_0,
                            ));
                            assert(genes0 + (seq![g] + spec_tokens_of(rest)->Some_0) =~= genes@
                                + spec_tokens_of(rest)->Some_0);
                        }
                    }
                    start = i + 1;
                },
            }
        }
    }

    /// Flips bit `bit` of the gene at `index`, leaving the rest unchanged.
    pub fn point_mutate(genome: &mut Vec<Gene>, index: usize, bit: usize)
        requires
            index < old(genome)@.len(),
            bit < 8,
        ensures
            final(genome)@ == old(genome)@.update(
                index as int,
                Gene(old(genome)@[index as int].0 ^ (1u8 << bit)),
            ),
    {
        let g = genome[index];
        genome.set(index, Gene(g.0 ^ (1u8 << bit)));
    }

    /// One mutation round: with probability `MUTATION_PERCENT` per cent,
    /// one structural edit (append one random gene, or remove one random
    /// gene; an empty genome is left alone); otherwise a point mutation of
    /// one random bit in each of `round(len * MUTATION_PERCENT / 100)`
    /// independently drawn genes, possibly repeating a gene. Returns the
    /// textual form of a genome related to the input as `spec_mutation_of`
    /// says: one gene appended, one removed, or the same genes with at
    /// most that many single-bit flips.
    pub fn mutate(genome: Vec<Gene>, rng: &mut rand::rngs::StdRng) -> (r: String)
        ensures
            exists|g2: Seq<Gene>|
                r@ == spec_genome_text(g2, seq![' ']) && spec_mutation_of(genome@, g2),
    {
        let ghost g0 = genome@;
        let mut genes = genome;
        let coin = rng_below(rng, 100);
        if coin < MUTATION_PERCENT {
            if rng_below(rng, 2) == 1 {
                let fresh = Gene::new(rng_below(rng, 256) as u8);
                genes.push(fresh);
                proof {
                    assert(genes@ == g0.push(fresh));
                    assert(spec_mutation_of(g0, genes@));
                }
            } else {
                if genes.len() > 0 {
                    let idx = rng_below(rng, genes.len() as u64) as usize;
                    genes.remove(idx);
                    proof {
                        assert(genes@ == g0.remove(idx as int));
                        assert(spec_mutation_of(g0, genes@));
                    }
                } else {
                    proof {
                        assert(spec_within_flips(g0, genes@, spec_mutation_count(g0.len())));
                        assert(spec_mutation_of(g0, genes@));
                    }
                }
            }
        } else {
            let len = genes.len();
            let k = (((len as u128) * (MUTATION_PERCENT as u128) + 50) / 100) as usize;
            proof {
                assert(k as nat == spec_mutation_count(g0.len()));
            }
            let mut t: usize = 0;
            while t < k
                invariant
                    genes@.len() == len,
                    len == g0.len(),
                    t <= k,
                    k as nat == spec_mutation_count(g0.len()),
                    spec_within_flips(g0, genes@, t as nat),
                decreases k - t,
            {
                if len > 0 {
                    let ghost mid = genes@;
                    let idx = rng_below(rng, len as u64) as usize;
                    let bit = rng_below(rng, 8) as usize;
                    Genome::point_mutate(&mut genes, idx, bit);
                    proof {
                        assert(genes@ == spec_flip_gene(mid, idx as int, bit));
                        lemma_flip_gene_involution(mid, idx as int, bit);
                        assert(spec_flip_gene(genes@, idx as int, bit) == mid);
                        assert(spec_within_flips(g0, genes@, (t + 1) as nat));
                    }
                }
                t = t + 1;
            }
            proof {
                assert(spec_within_flips(g0, genes@, spec_mutation_count(g0.len())));
                assert(spec_mutation_of(g0, genes@));
            }
        }
        let ghost g2 = genes@;
        let r = Genome::get(genes);
        proof {
            assert(r@ == spec_genome_text(g2, seq![' ']) && spec_mutation_of(g0, g2));
        }
        r
    }
}

} // verus!
