use evobrain::gene::{ActionType, Gene, GeneParse, SenseType};
use evobrain::genome::Genome;
use evobrain::rat::Rat;

#[test]
fn round_trip_all_bytes() {
    for b in 0..=255u8 {
        let g = Gene::new(b);
        let text = g.encode_text();
        assert_eq!(text.len(), 8);
        let back = Gene::decode_text(&text).expect("every encoding parses");
        assert_eq!(back, g);
    }
}

#[test]
fn decode_total_all_bytes() {
    for b in 0..=255u8 {
        // Every byte decodes to exactly one instruction; none may panic.
        let _ = Gene::new(b).parse();
    }
}

#[test]
fn parse_connection() {
    assert_eq!(Gene::new(0b1000_0001).parse(), GeneParse::Connection(1, false));
    assert_eq!(Gene::new(0b1100_0001).parse(), GeneParse::Connection(1, true));
    assert_eq!(Gene::new(0b1011_1111).parse(), GeneParse::Connection(63, false));
}

#[test]
fn parse_internal_bias() {
    assert_eq!(Gene::new(0b0100_0001).parse(), GeneParse::Internal(Rat::new(1, 32)));
    assert_eq!(Gene::new(0b0100_0000).parse(), GeneParse::Internal(Rat::new(0, 32)));
    assert_eq!(Gene::new(0b0111_1111).parse(), GeneParse::Internal(Rat::new(63, 32)));
}

#[test]
fn parse_sense_and_action_modulo() {
    assert_eq!(Gene::new(0b0000_0000).parse(), GeneParse::Sense(SenseType::Blocked));
    assert_eq!(Gene::new(0b0000_0001).parse(), GeneParse::Sense(SenseType::Agent));
    assert_eq!(Gene::new(0b0000_0101).parse(), GeneParse::Sense(SenseType::Direction));
    // Sense index 31 wraps: 31 mod 6 == 1.
    assert_eq!(Gene::new(0b0001_1111).parse(), GeneParse::Sense(SenseType::Agent));
    assert_eq!(Gene::new(0b0010_0000).parse(), GeneParse::Action(ActionType::Move));
    assert_eq!(Gene::new(0b0010_0100).parse(), GeneParse::Action(ActionType::ProduceFood));
    // Action index 31 wraps: 31 mod 5 == 1.
    assert_eq!(Gene::new(0b0011_1111).parse(), GeneParse::Action(ActionType::TurnLeft));
}

#[test]
fn encode_text_exact() {
    assert_eq!(Gene::new(0b1011_0010).encode_text(), "10110010");
    assert_eq!(Gene::new(0).encode_text(), "00000000");
    assert_eq!(Gene::new(255).encode_text(), "11111111");
}

#[test]
fn decode_text_rejects_bad_input() {
    assert!(Gene::decode_text("0110010").is_err());
    assert!(Gene::decode_text("011001011").is_err());
    assert!(Gene::decode_text("0110010a").is_err());
    assert!(Gene::decode_text("").is_err());
    assert!(Gene::decode_text("01100102").is_err());
}

#[test]
fn bit_helpers() {
    assert!(Gene::get_bit(0b1000_0000, 7));
    assert!(!Gene::get_bit(0b1000_0000, 6));
    assert_eq!(Gene::get_ls_bits(0b1011_0110, 4), 0b0110);
    assert_eq!(Gene::get_ls_bits(0b1011_0110, 8), 0b1011_0110);
    assert_eq!(Gene::get_ls_bits(0b1011_0110, 0), 0);
    assert_eq!(Gene::get_bit_range(0b1011_0110, 2..6), 0b1101);
    assert_eq!(Gene::get_bit_range(0b1011_0110, 0..6), 0b11_0110);
}

#[test]
fn flip_bit_flips_exactly_one() {
    let mut g = Gene::new(0b0101_0101);
    g.flip_bit(3);
    assert_eq!(g.0, 0b0101_1101);
    g.flip_bit(3);
    assert_eq!(g.0, 0b0101_0101);
}

#[test]
fn gene_mutate_flips_one_bit() {
    let mut rng: rand::rngs::StdRng = rand::SeedableRng::seed_from_u64(11);
    for _ in 0..50 {
        let mut g = Gene::new(0b1010_1010);
        g.mutate(&mut rng);
        let diff = g.0 ^ 0b1010_1010;
        assert_eq!(diff.count_ones(), 1);
    }
}

#[test]
fn point_mutate_flips_one_bit_of_one_gene() {
    let mut genes = vec![Gene::new(0b0000_0000), Gene::new(0b1111_1111)];
    Genome::point_mutate(&mut genes, 0, 7);
    assert_eq!(genes[0].0, 0b1000_0000);
    assert_eq!(genes[1].0, 0b1111_1111);
    Genome::point_mutate(&mut genes, 1, 0);
    assert_eq!(genes[1].0, 0b1111_1110);
}

#[test]
fn genome_text_join() {
    let genes = vec![Gene::new(0b1011_0010), Gene::new(0b0100_0001), Gene::new(0b1110_0101)];
    assert_eq!(Genome::get(genes.clone()), "10110010 01000001 11100101");
    assert_eq!(Genome::get_with_delim(genes, "|"), "10110010|01000001|11100101");
    assert_eq!(Genome::get(Vec::new()), "");
    assert_eq!(Genome::get(vec![Gene::new(3)]), "00000011");
}

#[test]
fn genome_from_string_round_trip() {
    let text = "10110010 01000001 11100101";
    let genes = Genome::from_string(text).expect("well-formed genome text");
    assert_eq!(genes.len(), 3);
    assert_eq!(genes[0].0, 0b1011_0010);
    assert_eq!(genes[1].0, 0b0100_0001);
    assert_eq!(genes[2].0, 0b1110_0101);
    assert_eq!(Genome::get(genes), text);
}

#[test]
fn genome_from_string_empty_and_errors() {
    assert_eq!(Genome::from_string("").expect("empty genome").len(), 0);
    assert!(Genome::from_string(" ").is_err());
    assert!(Genome::from_string("10110010 ").is_err());
    assert!(Genome::from_string("10110010  01000001").is_err());
    assert!(Genome::from_string("1011001").is_err());
    assert!(Genome::from_string("10110010 0100000x").is_err());
}

#[test]
fn genome_mutate_changes_length_by_at_most_one() {
    let mut rng: rand::rngs::StdRng = rand::SeedableRng::seed_from_u64(5);
    let genes: Vec<Gene> = (0..20u8).map(|i| Gene::new(i * 7)).collect();
    for _ in 0..40 {
        let text = Genome::mutate(genes.clone(), &mut rng);
        let back = Genome::from_string(&text).expect("mutated genome text parses");
        let n = back.len();
        assert!(n == 19 || n == 20 || n == 21);
    }
}

#[test]
fn genome_mutate_empty_genome_survives() {
    let mut rng: rand::rngs::StdRng = rand::SeedableRng::seed_from_u64(9);
    for _ in 0..30 {
        let text = Genome::mutate(Vec::new(), &mut rng);
        let back = Genome::from_string(&text).expect("mutated empty genome text parses");
        assert!(back.len() <= 1);
    }
}
