use fin_part_ord::{AntisymmetryError, FinPartOrd, PairPartOrd};

#[test]
fn empty_valid() {
    let mut empty = PairPartOrd::<()>::empty();
    assert!(empty.valid());
    empty.reserve(8);
    assert!(empty.valid());
}

#[test]
fn push_unit_valid() {
    let unit = ();
    let mut ppo = PairPartOrd::empty();
    ppo = ppo.add(&unit, &unit).unwrap();
    assert!(ppo.valid());
    ppo = ppo.add(&unit, &unit).unwrap();
    assert!(ppo.valid());
}

#[test]
fn pairs_strings() {
    let mut ppo = PairPartOrd::empty();
    ppo = ppo.add("x".to_string(), "y".to_string()).unwrap();
    ppo = ppo.add("y".to_string(), "z".to_string()).unwrap();
    assert!(ppo.le(&"x".to_string(), &"z".to_string()).unwrap());
}

#[test]
fn pairs_strings_not_backwards() {
    let mut ppo = PairPartOrd::empty();
    ppo = ppo.add("x".to_string(), "y".to_string()).unwrap();
    ppo = ppo.add("y".to_string(), "z".to_string()).unwrap();
    assert_eq!(ppo.le(&"x".to_string(), &"z".to_string()), Ok(true));
    assert_eq!(ppo.le(&"z".to_string(), &"x".to_string()), Ok(false));
    assert_eq!(ppo.lt(&"x".to_string(), &"z".to_string()), Ok(true));
    assert_eq!(ppo.lt(&"z".to_string(), &"x".to_string()), Ok(false));
}

#[test]
fn pairs_empty_has_nothing() {
    let ppo = PairPartOrd::<u8>::empty();
    assert!(ppo.is_empty());
    assert_eq!(ppo.len(), 0);
    assert_eq!(ppo.check(), Ok(true));
    assert_eq!(ppo.lt(&1, &2), Ok(false));
    assert_eq!(ppo.le(&1, &2), Ok(false));
    assert!(!ppo.chase(&1, &2));
}

#[test]
fn pairs_len_counts_stored_facts() {
    let mut ppo = PairPartOrd::empty();
    ppo = ppo.add(1u8, 2u8).unwrap();
    assert!(!ppo.is_empty());
    assert_eq!(ppo.len(), 1);
    ppo = ppo.add(2, 3).unwrap();
    assert_eq!(ppo.len(), 2);
    ppo = ppo.add(1, 2).unwrap();
    assert_eq!(ppo.len(), 3);
    ppo = ppo.add(7, 7).unwrap();
    assert_eq!(ppo.len(), 3);
}

#[test]
fn pairs_reserve_keeps_the_order() {
    let mut ppo = PairPartOrd::empty();
    ppo = ppo.add(1u8, 2u8).unwrap();
    ppo.reserve(100);
    assert_eq!(ppo.len(), 1);
    assert!(ppo.valid());
    assert_eq!(ppo.le(&1, &2), Ok(true));
    assert_eq!(ppo.le(&2, &1), Ok(false));
}

#[test]
fn pairs_reflexive() {
    let mut ppo = PairPartOrd::empty();
    assert_eq!(ppo.le(&9u8, &9u8), Ok(true));
    ppo = ppo.add(1, 2).unwrap();
    assert_eq!(ppo.le(&1, &1), Ok(true));
    assert_eq!(ppo.le(&2, &2), Ok(true));
    assert_eq!(ppo.le(&9, &9), Ok(true));
}

#[test]
fn pairs_lt_is_strict() {
    let mut ppo = PairPartOrd::empty();
    ppo = ppo.add(1u8, 2u8).unwrap();
    assert_eq!(ppo.lt(&1, &1), Ok(false));
    assert_eq!(ppo.lt(&2, &2), Ok(false));
    assert_eq!(ppo.lt(&9, &9), Ok(false));
}

#[test]
fn pairs_antisymmetric() {
    let mut ppo = PairPartOrd::empty();
    ppo = ppo.add(1u8, 2u8).unwrap();
    ppo = ppo.add(2, 3).unwrap();
    ppo = ppo.add(1, 4).unwrap();
    for x in 0u8..6 {
        for y in 0u8..6 {
            if ppo.le(&x, &y).unwrap() && ppo.le(&y, &x).unwrap() {
                assert_eq!(x, y);
            }
        }
    }
}

#[test]
fn pairs_transitive() {
    let mut ppo = PairPartOrd::empty();
    ppo = ppo.add(1u8, 2u8).unwrap();
    ppo = ppo.add(2, 3).unwrap();
    ppo = ppo.add(3, 4).unwrap();
    ppo = ppo.add(1, 5).unwrap();
    ppo = ppo.add(0, 3).unwrap();
    for x in 0u8..7 {
        for y in 0u8..7 {
            for z in 0u8..7 {
                if ppo.le(&x, &y).unwrap() && ppo.le(&y, &z).unwrap() {
                    assert!(ppo.le(&x, &z).unwrap());
                }
            }
        }
    }
    assert_eq!(ppo.le(&1, &4), Ok(true));
    assert_eq!(ppo.le(&0, &4), Ok(true));
    assert_eq!(ppo.le(&0, &5), Ok(false));
    assert_eq!(ppo.le(&5, &4), Ok(false));
}

#[test]
fn pairs_add_then_le() {
    let mut ppo = PairPartOrd::empty();
    for (x, y) in [(3u8, 8u8), (1, 3), (8, 9), (2, 9)] {
        ppo = ppo.add(x, y).unwrap();
        assert_eq!(ppo.le(&x, &y), Ok(true));
        assert_eq!(ppo.le(&y, &x), Ok(false));
    }
}

#[test]
fn pairs_reverse_is_refused() {
    let mut ppo = PairPartOrd::empty();
    ppo = ppo.add(1u8, 2u8).unwrap();
    let kept = ppo.clone();
    assert_eq!(ppo.add(2, 1).err(), Some(AntisymmetryError));
    assert_eq!(kept.le(&1, &2), Ok(true));
    assert_eq!(kept.le(&2, &1), Ok(false));
    assert!(kept.valid());
    assert_eq!(kept.len(), 1);
}

#[test]
fn pairs_long_cycle_is_refused() {
    let mut ppo = PairPartOrd::empty();
    ppo = ppo.add(1u8, 2u8).unwrap();
    ppo = ppo.add(2, 3).unwrap();
    ppo = ppo.add(3, 4).unwrap();
    assert!(ppo.clone().add(4, 1).is_err());
    assert!(ppo.clone().add(3, 1).is_err());
    assert!(ppo.clone().add(4, 2).is_err());
    assert!(ppo.clone().add(1, 4).is_ok());
    assert!(ppo.clone().add(4, 5).is_ok());
}

#[test]
fn pairs_cycle_beside_the_first_fact_is_refused() {
    let mut ppo = PairPartOrd::empty();
    ppo = ppo.add(1u8, 2u8).unwrap();
    ppo = ppo.add(2, 3).unwrap();
    assert_eq!(ppo.add(3, 2).err(), Some(AntisymmetryError));
}

#[test]
fn pairs_self_pair_is_no_fact() {
    let mut ppo = PairPartOrd::empty();
    assert_eq!(ppo.le(&5u8, &5u8), Ok(true));
    ppo = ppo.add(5, 5).unwrap();
    assert_eq!(ppo.le(&5, &5), Ok(true));
    assert!(ppo.is_empty());
    assert_eq!(ppo.lt(&5, &5), Ok(false));
    ppo = ppo.add(5, 6).unwrap();
    ppo = ppo.add(5, 5).unwrap();
    ppo = ppo.add(6, 6).unwrap();
    assert_eq!(ppo.len(), 1);
}

#[test]
fn pairs_unknown_is_incomparable() {
    let mut ppo = PairPartOrd::empty();
    ppo = ppo.add(1u8, 2u8).unwrap();
    ppo = ppo.add(2, 3).unwrap();
    for known in [1u8, 2, 3] {
        assert_eq!(ppo.lt(&77, &known), Ok(false));
        assert_eq!(ppo.lt(&known, &77), Ok(false));
    }
    assert_eq!(ppo.lt(&77, &78), Ok(false));
    assert_eq!(ppo.lt(&77, &77), Ok(false));
}

#[test]
fn pairs_unrelated_stay_unrelated() {
    let mut ppo = PairPartOrd::empty();
    ppo = ppo.add('a', 'b').unwrap();
    ppo = ppo.add('c', 'd').unwrap();
    assert_eq!(ppo.le(&'a', &'d'), Ok(false));
    assert_eq!(ppo.le(&'a', &'c'), Ok(false));
    assert_eq!(ppo.le(&'c', &'b'), Ok(false));
    assert_eq!(ppo.le(&'a', &'b'), Ok(true));
    assert_eq!(ppo.le(&'c', &'d'), Ok(true));
}

#[test]
fn pairs_chain() {
    let n = 40u32;
    let mut ppo = PairPartOrd::empty();
    for i in 0..n {
        ppo = ppo.add(i, i + 1).unwrap();
    }
    assert_eq!(ppo.len(), 40);
    assert_eq!(ppo.le(&0, &n), Ok(true));
    assert_eq!(ppo.le(&n, &0), Ok(false));
    assert_eq!(ppo.le(&17, &23), Ok(true));
    assert_eq!(ppo.le(&23, &17), Ok(false));
}

#[test]
fn pairs_diamond_is_searched_once() {
    let mut ppo = PairPartOrd::empty();
    for layer in 0u32..12 {
        let top = layer * 3;
        ppo = ppo.add(top, top + 1).unwrap();
        ppo = ppo.add(top, top + 2).unwrap();
        ppo = ppo.add(top + 1, top + 3).unwrap();
        ppo = ppo.add(top + 2, top + 3).unwrap();
    }
    assert_eq!(ppo.le(&0, &36), Ok(true));
    assert_eq!(ppo.le(&36, &0), Ok(false));
    assert_eq!(ppo.le(&1, &2), Ok(false));
    assert!(ppo.chase(&0, &36));
    assert!(!ppo.chase(&0, &37));
}

#[test]
fn pairs_check_and_valid_agree() {
    let mut ppo = PairPartOrd::empty();
    assert_eq!(ppo.check(), Ok(true));
    ppo = ppo.add(1u8, 2u8).unwrap();
    ppo = ppo.add(1, 3).unwrap();
    assert_eq!(ppo.check(), Ok(true));
    assert!(ppo.valid());
}

#[test]
fn pairs_chase_follows_facts_forward() {
    let mut ppo = PairPartOrd::empty();
    ppo = ppo.add(1u8, 2u8).unwrap();
    ppo = ppo.add(2, 3).unwrap();
    ppo = ppo.add(4, 3).unwrap();
    assert!(ppo.chase(&1, &2));
    assert!(ppo.chase(&1, &3));
    assert!(ppo.chase(&4, &3));
    assert!(!ppo.chase(&3, &1));
    assert!(!ppo.chase(&1, &4));
    assert!(!ppo.chase(&4, &2));
    assert!(!ppo.chase(&1, &1));
}

#[test]
fn pairs_clone_has_storage_of_its_own() {
    let mut ppo = PairPartOrd::empty();
    ppo = ppo.add(1u8, 2u8).unwrap();
    let kept = ppo.clone();
    ppo = ppo.add(2, 3).unwrap();
    assert_eq!(ppo.len(), 2);
    assert_eq!(kept.len(), 1);
    assert_eq!(ppo.le(&1, &3), Ok(true));
    assert_eq!(kept.le(&1, &3), Ok(false));
    assert_eq!(kept.le(&1, &2), Ok(true));
}

#[test]
fn pairs_le_is_equal_or_lt() {
    let mut ppo = PairPartOrd::empty();
    ppo = ppo.add(1u8, 2u8).unwrap();
    ppo = ppo.add(2, 3).unwrap();
    for x in 0u8..5 {
        for y in 0u8..5 {
            assert_eq!(ppo.le(&x, &y).unwrap(), x == y || ppo.lt(&x, &y).unwrap());
        }
    }
}
