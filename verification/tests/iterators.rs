use poker_engine::engine::cards::Cards;
use poker_engine::engine::constants::{ACE, FULL_DECK, HEART, SPADE};
use poker_engine::util::all_bit_combo_iterator::{lowest, IntoAllBitIterator};
use poker_engine::util::bit_iterator::{IntoFromLeftBitIterator, IntoFromRightBitIterator};
use std::time::Instant;

fn from_left(word: u64) -> Vec<u64> {
    let mut bits = Vec::new();
    let mut scan = word.iter_from_left();
    while let Some(bit) = scan.next() {
        bits.push(bit);
    }
    bits
}

fn from_right(word: u64) -> Vec<u64> {
    let mut bits = Vec::new();
    let mut scan = word.iter_from_right();
    while let Some(bit) = scan.next() {
        bits.push(bit);
    }
    bits
}

fn all_combinations(word: u64, size: usize) -> Vec<u64> {
    let mut all = Vec::new();
    let mut combos = word.iter_gosper(size);
    while let Some(combo) = combos.next() {
        all.push(combo);
    }
    all
}

fn binomial(n: u128, k: u128) -> u128 {
    let numerator: u128 = ((n - k + 1)..=n).product();
    let denominator: u128 = (1..=k).product();
    numerator / denominator
}

#[test]
fn test_bit_shift() {
    let mut cursor: u64 = 1;
    let mut i: u32 = 0;

    while cursor > 0 && i < 65 {
        i += 1;
        cursor <<= 1;
        println!("{} {}", i, cursor)
    }
}

#[test]
fn test_all_bit_iter() {
    let instant = Instant::now();

    // The whole enumeration takes hours; the run stops after a few seconds.
    let mut hands = FULL_DECK.iter_gosper(2);
    while let Some(hand) = hands.next() {
        let mut boards = (FULL_DECK ^ hand).iter_gosper(5);
        while let Some(_) = boards.next() {
            if instant.elapsed().as_secs_f32() > 3.0 {
                break;
            }
        }
        println!(
            "{} {}",
            Cards::from(hand).to_string(),
            instant.elapsed().as_secs_f32()
        );
        if instant.elapsed().as_secs_f32() > 3.0 {
            break;
        }
    }

    println!("total {}", instant.elapsed().as_secs_f32());
}

#[test]
fn test_count() {
    let to_iter = FULL_DECK;
    let count = 5;

    let mask_count = to_iter.count_ones() as u128;
    let mask_factorial: u128 = ((mask_count - count as u128 + 1)..=mask_count).product();
    let count_factorial: u128 = (1..=count as u128).product();
    let total = mask_factorial / count_factorial;

    let mut iter = to_iter.iter_gosper(count);
    let mut yielded: u128 = 0;
    while let Some(_) = iter.next() {
        yielded += 1;
    }
    assert_eq!(total, yielded);
}

#[test]
fn test_perf() {
    let hand = (ACE & SPADE) | (ACE & HEART);
    let deck = FULL_DECK ^ hand;

    let start = Instant::now();
    let mut instant = Instant::now();
    let mut i = 0u64;
    // The whole enumeration takes hours; the run stops after a few seconds.
    let mut tables = deck.iter_gosper(5);
    'tables: while let Some(table) = tables.next() {
        let mut hands = (deck ^ table).iter_gosper(2);
        while let Some(_) = hands.next() {
            i += 1;
            if i % 10000000 == 0 {
                println!("Elapsed {} {}", i, instant.elapsed().as_secs_f32());
                instant = Instant::now();
            }
        }
        if start.elapsed().as_secs_f32() > 3.0 {
            break 'tables;
        }
    }

    println!("Done {}", instant.elapsed().as_secs_f32());
}

#[test]
fn test_iterate() {
    let base: u64 = 0b0010000010000100000100000010000000001001000100;

    assert_eq!(base, from_left(base).iter().sum::<u64>(), "lr sum");
    assert_eq!(base, from_right(base).iter().sum::<u64>(), "rl sum");

    for i in from_right(base) {
        assert_eq!((base & i).count_ones(), 1);
    }

    for i in from_left(base) {
        assert_eq!((base & i).count_ones(), 1);
    }

    let mut base_list_lr = from_left(base);
    base_list_lr.reverse();
    for (i, n) in base_list_lr.iter().enumerate() {
        assert_eq!(Some(*n), from_right(base).get(i).copied());
    }
}

#[test]
fn scanners_report_each_set_bit_in_order() {
    assert_eq!(from_left(0b1011), vec![0b1000, 0b0010, 0b0001]);
    assert_eq!(from_right(0b1011), vec![0b0001, 0b0010, 0b1000]);
    assert_eq!(from_left(0), Vec::<u64>::new());
    assert_eq!(from_right(0), Vec::<u64>::new());
    assert_eq!(from_left(1 << 63), vec![1 << 63]);
    assert_eq!(from_right(u64::MAX).len(), 64);
    assert_eq!(from_left(u64::MAX)[0], 1 << 63);
    assert_eq!(from_right(u64::MAX)[63], 1 << 63);

    let mut scan = 0b100u64.iter_from_right();
    assert_eq!(scan.next(), Some(0b100));
    assert_eq!(scan.next(), None);
    assert_eq!(scan.next(), None);
}

#[test]
fn lowest_takes_bits_from_the_bottom() {
    assert_eq!(lowest(0b110100, 0), 0);
    assert_eq!(lowest(0b110100, 1), 0b000100);
    assert_eq!(lowest(0b110100, 2), 0b010100);
    assert_eq!(lowest(0b110100, 3), 0b110100);
    assert_eq!(lowest(0b110100, 9), 0b110100);
}

#[test]
fn combinations_of_a_sparse_word_come_in_increasing_order() {
    let word = 0b101001u64;
    assert_eq!(all_combinations(word, 1), vec![0b000001, 0b001000, 0b100000]);
    assert_eq!(all_combinations(word, 2), vec![0b001001, 0b100001, 0b101000]);
    assert_eq!(all_combinations(word, 3), vec![0b101001]);
    // The selection of no bit is one selection.
    assert_eq!(all_combinations(word, 0), vec![0]);
    assert_eq!(all_combinations(0, 0), vec![0]);
    assert_eq!(all_combinations(u64::MAX, 0), vec![0]);
    assert_eq!(
        all_combinations(0b11011, 2),
        vec![0b00011, 0b01001, 0b01010, 0b10001, 0b10010, 0b11000]
    );
}

#[test]
fn combinations_are_as_many_as_the_binomial_says_and_all_different() {
    let words = [0xFFu64, 0x8421_0842_1084_2108, 0xF0F0_0000_0000_000F, FULL_DECK & HEART];
    for word in words {
        let bits = word.count_ones() as usize;
        for size in 0..=bits {
            let all = all_combinations(word, size);
            assert_eq!(all.len() as u128, binomial(bits as u128, size as u128));
            for pair in all.windows(2) {
                assert!(pair[0] < pair[1]);
            }
            for combo in all.iter() {
                assert_eq!(combo & word, *combo);
                assert_eq!(combo.count_ones() as usize, size);
            }
            assert_eq!(all[0], lowest(word, size as u32));
        }
    }
}

#[test]
fn an_exhausted_enumeration_stays_exhausted() {
    let mut combos = 0b11u64.iter_gosper(2);
    assert_eq!(combos.next(), Some(0b11));
    assert_eq!(combos.next(), None);
    assert_eq!(combos.next(), None);
    let mut full = u64::MAX.iter_gosper(64);
    assert_eq!(full.next(), Some(u64::MAX));
    assert_eq!(full.next(), None);
    let mut none = 0b1011u64.iter_gosper(0);
    assert_eq!(none.next(), Some(0));
    assert_eq!(none.next(), None);
    assert_eq!(none.next(), None);
}
