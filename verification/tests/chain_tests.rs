use markov::{Chain, ScriptedSource, SeededSource};

#[test]
fn new() {
    Chain::<u8>::new();
    Chain::<String>::new();
}

#[test]
fn is_empty() {
    let mut chain = Chain::new();
    assert!(chain.is_empty());
    chain.feed(vec![1u8, 2, 3]);
    assert!(!chain.is_empty());
}

#[test]
fn feed() {
    let mut chain = Chain::new();
    chain.feed(vec![3, 5, 10]);
    chain.feed(vec![5, 12]);
}

#[test]
fn generate() {
    let mut chain = Chain::new();
    chain.feed(vec![3u8, 5, 10]);
    chain.feed(vec![5, 12]);
    let v = chain.generate();
    assert!([vec![3, 5, 10], vec![3, 5, 12], vec![5, 10], vec![5, 12]].contains(&v));
}

#[test]
fn generate_with_seed() {
    let mut chain = Chain::new();
    chain.feed(vec![3u8, 5, 10]);
    chain.feed(vec![5, 12]);
    let v = chain.generate_with_seed(3);
    assert!(v == vec![3, 5, 10]);
    let v = chain.generate_with_seed(1);
    assert!(v == vec![5, 10]);
}

#[test]
fn generate_with_rng() {
    let mut rng = SeededSource::new(3);
    let mut chain = Chain::new();
    chain.feed(vec![3u8, 5, 10]);
    chain.feed(vec![5, 12]);
    let v = chain.generate_with_rng(&mut rng);
    assert!(v == vec![3, 5, 10]);
    let v = chain.generate_with_rng(&mut rng);
    assert!(v == vec![3, 5, 12]);
}

#[test]
fn generate_for_higher_order() {
    let mut chain = Chain::of_order(2);
    chain.feed(vec![3u8, 5, 10]);
    chain.feed(vec![2, 3, 5, 12]);
    let v = chain.generate();
    assert!(
        [
            vec![3, 5, 10],
            vec![3, 5, 12],
            vec![2, 3, 5, 10],
            vec![2, 3, 5, 12]
        ]
        .contains(&v)
    );
}

#[test]
fn generate_from_token() {
    let mut chain = Chain::new();
    chain.feed(vec![3u8, 5, 10]);
    chain.feed(vec![5, 12]);
    let v = chain.generate_from_token(5);
    assert!([vec![5, 10], vec![5, 12]].contains(&v));
}

#[test]
fn generate_from_token_with_seed() {
    let mut chain = Chain::new();
    chain.feed(vec![3u8, 5, 10, 13]);
    chain.feed(vec![5, 12, 10]);
    let v = chain.generate_from_token_with_seed(5, 3);
    assert!(v == vec![5, 10, 13]);
    let v = chain.generate_from_token_with_seed(5, 1);
    assert!(v == vec![5, 12, 10, 13]);
}

#[test]
fn generate_from_token_with_rng() {
    let mut rng = SeededSource::new(3);
    let mut chain = Chain::new();
    chain.feed(vec![3u8, 5, 10, 13]);
    chain.feed(vec![5, 12, 10]);
    let v = chain.generate_from_token_with_rng(5, &mut rng);
    assert!(v == vec![5, 10, 13]);
    let v = chain.generate_from_token_with_rng(5, &mut rng);
    assert!(v == vec![5, 10]);
}

#[test]
fn generate_from_unfound_token() {
    let mut chain = Chain::new();
    chain.feed(vec![3u8, 5, 10]);
    chain.feed(vec![5, 12]);
    let v: Vec<u8> = chain.generate_from_token(9);
    assert!(v.is_empty());
}

#[test]
fn iter() {
    let mut chain = Chain::new();
    chain.feed(vec![3u8, 5, 10]);
    chain.feed(vec![5, 12]);
    assert_eq!(chain.iter().size_hint().1, None);
}

#[test]
fn iter_for() {
    let mut chain = Chain::new();
    chain.feed(vec![3u8, 5, 10]);
    chain.feed(vec![5, 12]);
    assert_eq!(chain.iter_for(5).collect().len(), 5);
}

#[test]
fn feed_str() {
    let mut chain = Chain::new();
    chain.feed_str("I like cats and dogs");
}

#[test]
fn generate_str() {
    let mut chain = Chain::new();
    chain.feed_str("I like cats");
    chain.feed_str("I hate cats");
    assert!(["I like cats", "I hate cats"].contains(&&chain.generate_str()[..]));
}

#[test]
fn generate_str_from_token() {
    let mut chain = Chain::new();
    chain.feed_str("I like cats");
    chain.feed_str("cats are cute");
    assert!(["cats", "cats are cute"].contains(&&chain.generate_str_from_token("cats")[..]));
}

#[test]
fn generate_str_from_token_higher_order() {
    let mut chain = Chain::of_order(2);
    chain.feed_str("I like cats");
    chain.feed_str("cats are cute");
    println!("{:?}", chain.generate_str_from_token("cats"));
    assert!(["cats", "cats are cute"].contains(&&chain.generate_str_from_token("cats")[..]));
}

#[test]
fn generate_str_from_unfound_token() {
    let mut chain = Chain::new();
    chain.feed_str("I like cats");
    chain.feed_str("cats are cute");
    assert_eq!(chain.generate_str_from_token("test"), "");
}

#[test]
fn str_iter() {
    let mut chain = Chain::new();
    chain.feed_str("I like cats and I like dogs");
    assert_eq!(chain.str_iter().size_hint().1, None);
}

#[test]
fn str_iter_for() {
    let mut chain = Chain::new();
    chain.feed_str("I like cats and I like dogs");
    assert_eq!(chain.str_iter_for(5).collect().len(), 5);
}

#[test]
fn merge() {
    let mut chain = Chain::of_order(2);
    chain.feed_str("I like cats and I like dogs");
    chain.feed_str("I like puzzles and I don't like dogs");
    chain.feed_str("I don't like puzzles and I like dogs");

    let mut new_chain = Chain::of_order(2);
    new_chain.feed_str("I like cats and I like dogs");

    let mut another_chain = Chain::of_order(2);
    another_chain.feed_str("I like puzzles and I don't like dogs");
    another_chain.feed_str("I don't like puzzles and I like dogs");

    new_chain.merge(another_chain);
    assert_eq!(chain, new_chain);
}

#[test]
fn feed_empty_is_noop() {
    let mut fed = Chain::new();
    fed.feed(vec![3u8, 5]);
    let mut also_fed = Chain::new();
    also_fed.feed(vec![3u8, 5]);
    also_fed.feed(vec![]);
    assert_eq!(fed, also_fed);
}

#[test]
fn generate_scripted_deterministic() {
    let mut chain = Chain::new();
    chain.feed(vec![3u8, 5, 10]);
    chain.feed(vec![5, 12]);
    let mut first_source = ScriptedSource::new(vec![4, 9, 2, 7, 0, 3]);
    let mut second_source = ScriptedSource::new(vec![4, 9, 2, 7, 0, 3]);
    let a = chain.generate_with_rng(&mut first_source);
    let b = chain.generate_with_rng(&mut second_source);
    assert_eq!(a, b);
}

#[test]
fn generate_numeric_order_two() {
    let mut chain = Chain::of_order(2);
    chain.feed(vec![1, 2, 3, 4, 5]);
    chain.feed(vec![2, 3, 5, 6]);
    let v = chain.generate();
    assert!([vec![1, 2, 3, 4, 5], vec![1, 2, 3, 5, 6], vec![2, 3, 4, 5], vec![2, 3, 5, 6]]
        .contains(&v));
}

#[test]
fn generate_from_tokens_partial_prefix() {
    let mut chain = Chain::new();
    chain.feed_str("I like cats");
    chain.feed_str("cats are cute");
    let seeds = vec![String::from("cats"), String::from("lick")];
    let v = chain.generate_from_tokens(seeds);
    assert_eq!(v, vec![String::from("cats")]);
}

#[test]
fn generate_from_tokens_full_seed() {
    let mut chain = Chain::new();
    chain.feed_str("I like cats");
    chain.feed_str("cats are cute");
    let seeds = vec![String::from("cats"), String::from("are")];
    let v = chain.generate_from_tokens(seeds);
    assert_eq!(
        v,
        vec![
            String::from("cats"),
            String::from("are"),
            String::from("cute")
        ]
    );
}

#[test]
fn iter_for_exhausts_after_count() {
    let mut chain = Chain::new();
    chain.feed(vec![3u8, 5]);
    let mut it = chain.iter_for(2);
    assert!(it.next().is_some());
    assert!(it.next().is_some());
    assert!(it.next().is_none());
    assert_eq!(it.size_hint(), (0, Some(0)));
}

#[test]
fn iter_never_exhausts() {
    let mut chain = Chain::new();
    chain.feed(vec![3u8, 5]);
    let mut it = chain.iter();
    for _ in 0..5 {
        assert!(it.next().is_some());
    }
    assert_eq!(it.size_hint(), (0, None));
}

#[test]
fn parts_round_trip() {
    let mut chain = Chain::of_order(2);
    chain.feed_str("I like cats and I like dogs");
    let parts = chain.to_parts();
    let restored = Chain::from_parts(&parts).unwrap();
    assert_eq!(chain, restored);
}

#[test]
fn restore_rejects_bad_order() {
    let chain = Chain::<u8>::new();
    let mut parts = chain.to_parts();
    parts.order = 0;
    assert!(Chain::from_parts(&parts).is_none());
}

#[test]
fn restore_rejects_dangling_transition() {
    let chain = Chain::<u8>::new();
    let mut parts = chain.to_parts();
    // a transition to a context that has no row
    parts.entries[0].1.push((Some(7), 1));
    assert!(Chain::from_parts(&parts).is_none());
}

#[test]
fn counts_accumulate() {
    let mut chain = Chain::new();
    chain.feed(vec![7u8]);
    chain.feed(vec![7u8]);
    let parts = chain.to_parts();
    // the start context saw 7 twice, and 7 was followed by the end marker
    // twice
    let start = parts
        .entries
        .iter()
        .find(|r| r.0 == vec![None])
        .expect("start row");
    assert_eq!(start.1, vec![(Some(7u8), 2)]);
    let seven = parts
        .entries
        .iter()
        .find(|r| r.0 == vec![Some(7u8)])
        .expect("token row");
    assert_eq!(seven.1, vec![(None, 2)]);
}

#[test]
fn merge_is_commutative() {
    let mut left = Chain::of_order(1);
    left.feed_str("a b c");
    let mut right = Chain::of_order(1);
    right.feed_str("b c d");
    let mut lr = left.clone();
    lr.merge(right.clone());
    let mut rl = right;
    rl.merge(left);
    assert_eq!(lr, rl);
}

#[test]
fn feed_str_keeps_empty_fragments() {
    // split on single spaces keeps empty fragments, and joining puts the
    // double space back
    let mut chain = Chain::new();
    chain.feed_str("a  b");
    assert_eq!(chain.generate_str(), "a  b");
}

#[test]
fn generate_from_tokens_on_empty_chain() {
    let chain = Chain::<u8>::new();
    let v = chain.generate_from_tokens(vec![]);
    assert!(v.is_empty());
}
