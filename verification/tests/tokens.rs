use llm::batch::{batch_from_starts, get_batch};
use llm::grid::{FlagArray, TokenArray};
use llm::random::{random_u64, random_up_to, rng_from_seed};
use llm::training::{evaluates_at, split_data, MAX_ITERS};
use llm::vocab::Vocabulary;
use rand::rngs::SmallRng;
use rand::{RngExt, SeedableRng};

fn rows_of(table: &TokenArray) -> Vec<Vec<usize>> {
    let (rows, cols) = table.dim();
    (0..rows)
        .map(|r| (0..cols).map(|c| table.get(r, c)).collect())
        .collect()
}

#[test]
fn vocabulary_round_trips_bytes() {
    let text = b"banana";
    let vocab = Vocabulary::new(text);
    let encoded = vocab.encode(text);

    assert_eq!(vocab.decode(&encoded), text);
}

#[test]
fn tokens_are_the_ranks_of_the_bytes() {
    let vocab = Vocabulary::new(b"banana");
    assert_eq!(vocab.len(), 3);
    assert_eq!(vocab.itos, b"abn".to_vec());
    assert_eq!(vocab.encode(b"nab"), vec![2, 0, 1]);
    assert_eq!(vocab.decode(&[1, 0, 2]), b"ban".to_vec());
    assert_eq!(vocab.encode(&vocab.decode(&[2, 2, 0])), vec![2, 2, 0]);
}

#[test]
fn an_empty_text_has_no_tokens() {
    let vocab = Vocabulary::new(b"");
    assert_eq!(vocab.len(), 0);
    assert!(vocab.encode(b"").is_empty());
    assert!(vocab.decode(&[]).is_empty());
}

#[test]
fn every_byte_can_be_a_token() {
    let text: Vec<u8> = (0..=255u8).rev().collect();
    let vocab = Vocabulary::new(&text);
    assert_eq!(vocab.len(), 256);
    assert_eq!(vocab.encode(&[0, 17, 255]), vec![0, 17, 255]);
}

#[test]
fn token_tables_hold_their_items_row_by_row() {
    let table = TokenArray::from_shape_vec(2, 3, vec![1, 2, 3, 4, 5, 6]).unwrap();
    assert_eq!(table.dim(), (2, 3));
    assert_eq!(rows_of(&table), vec![vec![1, 2, 3], vec![4, 5, 6]]);
    assert_eq!(rows_of(&table.duplicate()), rows_of(&table));
    assert!(TokenArray::from_shape_vec(2, 3, vec![1, 2, 3, 4, 5]).is_none());
    assert!(TokenArray::from_shape_vec(usize::MAX, 0, vec![]).is_none());
    assert_eq!(
        TokenArray::from_shape_vec(0, 5, vec![]).unwrap().dim(),
        (0, 5)
    );
}

#[test]
fn causal_masks_flag_what_lies_ahead() {
    let mask = FlagArray::causal(3);
    for i in 0..3 {
        for j in 0..3 {
            assert_eq!(mask.get(i, j), j > i);
        }
    }
}

#[test]
fn batches_are_windows_and_their_successors() {
    let data = [10, 11, 12, 13, 14];
    let (input, targets) = batch_from_starts(&data, &vec![1, 0], 3);
    assert_eq!(rows_of(&input), vec![vec![11, 12, 13], vec![10, 11, 12]]);
    assert_eq!(rows_of(&targets), vec![vec![12, 13, 14], vec![11, 12, 13]]);
}

#[test]
fn random_batches_lie_within_the_data() {
    let data: Vec<usize> = (0..20).collect();
    let mut rng = rng_from_seed(4);
    let mut starts = vec![false; 17];
    for _ in 0..50 {
        let (input, targets) = get_batch(&data, 4, 3, &mut rng);
        assert_eq!(input.dim(), (4, 3));
        assert_eq!(targets.dim(), (4, 3));
        for r in 0..4 {
            let start = input.get(r, 0);
            assert!(start <= 16);
            starts[start] = true;
            for t in 0..3 {
                assert_eq!(input.get(r, t), start + t);
                assert_eq!(targets.get(r, t), start + t + 1);
            }
        }
    }
    assert!(starts.iter().all(|seen| *seen));
}

#[test]
fn a_batch_can_use_all_of_the_data() {
    let data = [5, 6, 7];
    let (input, targets) = get_batch(&data, 2, 2, &mut rng_from_seed(0));
    assert_eq!(rows_of(&input), vec![vec![5, 6]; 2]);
    assert_eq!(rows_of(&targets), vec![vec![6, 7]; 2]);
}

#[test]
fn data_is_split_after_nine_tenths() {
    let data: Vec<usize> = (0..25).collect();
    let (train, val) = split_data(&data);
    assert_eq!(train.len(), 22);
    assert_eq!([train, val].concat(), data);
    let (train, val) = split_data(&[]);
    assert!(train.is_empty() && val.is_empty());
}

#[test]
fn the_loss_is_estimated_at_intervals_and_at_the_end() {
    let evaluated: Vec<usize> = (0..MAX_ITERS).filter(|i| evaluates_at(*i)).collect();
    assert_eq!(evaluated, vec![0, 500, 1000, 1500, 1999]);
}

#[test]
fn random_numbers_come_from_the_seeded_generator() {
    let mut rng = rng_from_seed(99);
    let mut again = SmallRng::seed_from_u64(99);
    assert_eq!(rng, again);
    let drawn: u64 = again.random();
    assert_eq!(random_u64(&mut rng), drawn);
    assert_eq!(rng, again);
    for max in [0, 1, 9, usize::MAX] {
        let number = random_up_to(max, &mut rng);
        assert_eq!(number, again.random_range(0..=max));
        assert!(number <= max);
        assert_eq!(rng, again);
    }
    assert_ne!(rng, rng_from_seed(99));
}

#[test]
fn batches_start_where_the_generator_says() {
    let data: Vec<usize> = (0..30).collect();
    let mut rng = rng_from_seed(6);
    let mut again = rng_from_seed(6);
    let (input, _) = get_batch(&data, 5, 4, &mut rng);
    for r in 0..5 {
        assert_eq!(input.get(r, 0), again.random_range(0..=25));
    }
    assert_eq!(rng, again);
}
