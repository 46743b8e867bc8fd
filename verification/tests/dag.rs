use fin_part_ord::{CycleError, DagPartOrd, FinPartOrd};

#[test]
fn empty() {
    let _ = DagPartOrd::<()>::empty();
}

#[test]
fn push_unit() {
    let unit = ();
    DagPartOrd::empty().add(&unit, &unit).unwrap();
}

#[test]
fn dag_strings() {
    let mut ppo = DagPartOrd::empty();
    ppo = ppo.add("x".to_string(), "y".to_string()).unwrap();
    ppo = ppo.add("y".to_string(), "z".to_string()).unwrap();
    assert!(ppo.le(&"x".to_string(), &"z".to_string()).unwrap());
}

#[test]
fn dag_strings_not_backwards() {
    let mut dpo = DagPartOrd::empty();
    dpo = dpo.add("x".to_string(), "y".to_string()).unwrap();
    dpo = dpo.add("y".to_string(), "z".to_string()).unwrap();
    assert_eq!(dpo.le(&"x".to_string(), &"z".to_string()), Ok(true));
    assert_eq!(dpo.le(&"z".to_string(), &"x".to_string()), Ok(false));
    assert_eq!(dpo.lt(&"x".to_string(), &"z".to_string()), Ok(true));
    assert_eq!(dpo.lt(&"z".to_string(), &"x".to_string()), Ok(false));
}

#[test]
fn dag_empty_has_nothing() {
    let dpo = DagPartOrd::<u8>::empty();
    assert_eq!(dpo.lt(&1, &2), Ok(false));
    assert_eq!(dpo.le(&1, &2), Ok(false));
    assert_eq!(dpo.lt(&1, &1), Ok(false));
    assert_eq!(dpo.le(&1, &1), Ok(true));
}

#[test]
fn dag_reflexive() {
    let mut dpo = DagPartOrd::empty();
    assert_eq!(dpo.le(&9u8, &9u8), Ok(true));
    dpo = dpo.add(1, 2).unwrap();
    assert_eq!(dpo.le(&1, &1), Ok(true));
    assert_eq!(dpo.le(&2, &2), Ok(true));
    assert_eq!(dpo.le(&9, &9), Ok(true));
}

#[test]
fn dag_lt_of_a_known_element_and_itself() {
    let mut dpo = DagPartOrd::empty();
    dpo = dpo.add(1u8, 2u8).unwrap();
    assert_eq!(dpo.lt(&1, &1), Ok(true));
    assert_eq!(dpo.lt(&2, &2), Ok(true));
    assert_eq!(dpo.lt(&9, &9), Ok(false));
}

#[test]
fn dag_antisymmetric() {
    let mut dpo = DagPartOrd::empty();
    dpo = dpo.add(1u8, 2u8).unwrap();
    dpo = dpo.add(2, 3).unwrap();
    dpo = dpo.add(1, 4).unwrap();
    for x in 0u8..6 {
        for y in 0u8..6 {
            if dpo.le(&x, &y).unwrap() && dpo.le(&y, &x).unwrap() {
                assert_eq!(x, y);
            }
        }
    }
}

#[test]
fn dag_transitive() {
    let mut dpo = DagPartOrd::empty();
    dpo = dpo.add(1u8, 2u8).unwrap();
    dpo = dpo.add(2, 3).unwrap();
    dpo = dpo.add(3, 4).unwrap();
    dpo = dpo.add(1, 5).unwrap();
    dpo = dpo.add(0, 3).unwrap();
    for x in 0u8..7 {
        for y in 0u8..7 {
            for z in 0u8..7 {
                if dpo.le(&x, &y).unwrap() && dpo.le(&y, &z).unwrap() {
                    assert!(dpo.le(&x, &z).unwrap());
                }
            }
        }
    }
    assert_eq!(dpo.le(&1, &4), Ok(true));
    assert_eq!(dpo.le(&0, &4), Ok(true));
    assert_eq!(dpo.le(&0, &5), Ok(false));
    assert_eq!(dpo.le(&5, &4), Ok(false));
}

#[test]
fn dag_add_then_le() {
    let mut dpo = DagPartOrd::empty();
    for (x, y) in [(3u8, 8u8), (1, 3), (8, 9), (2, 9)] {
        dpo = dpo.add(x, y).unwrap();
        assert_eq!(dpo.le(&x, &y), Ok(true));
        assert_eq!(dpo.le(&y, &x), Ok(false));
    }
}

#[test]
fn dag_reverse_is_refused() {
    let mut dpo = DagPartOrd::empty();
    dpo = dpo.add(1u8, 2u8).unwrap();
    let kept = dpo.clone();
    assert_eq!(dpo.add(2, 1).err(), Some(CycleError));
    assert_eq!(kept.le(&1, &2), Ok(true));
    assert_eq!(kept.le(&2, &1), Ok(false));
}

#[test]
fn dag_long_cycle_is_refused() {
    let mut dpo = DagPartOrd::empty();
    dpo = dpo.add(1u8, 2u8).unwrap();
    dpo = dpo.add(2, 3).unwrap();
    dpo = dpo.add(3, 4).unwrap();
    assert!(dpo.clone().add(4, 1).is_err());
    assert!(dpo.clone().add(3, 1).is_err());
    assert!(dpo.clone().add(4, 2).is_err());
    assert!(dpo.clone().add(1, 4).is_ok());
    assert!(dpo.clone().add(4, 5).is_ok());
}

#[test]
fn dag_clone_has_storage_of_its_own() {
    let mut dpo = DagPartOrd::empty();
    dpo = dpo.add(1u8, 2u8).unwrap();
    let kept = dpo.clone();
    dpo = dpo.add(2, 3).unwrap();
    assert_eq!(dpo.le(&1, &3), Ok(true));
    assert_eq!(kept.le(&1, &3), Ok(false));
    assert_eq!(kept.le(&1, &2), Ok(true));
    assert_eq!(kept.lt(&3, &3), Ok(false));
}

#[test]
fn dag_same_fact_twice() {
    let mut dpo = DagPartOrd::empty();
    dpo = dpo.add(1u8, 2u8).unwrap();
    dpo = dpo.add(1, 2).unwrap();
    assert_eq!(dpo.le(&1, &2), Ok(true));
    assert_eq!(dpo.le(&2, &1), Ok(false));
    assert!(dpo.add(2, 1).is_err());
}

#[test]
fn dag_self_pair_is_no_fact() {
    let mut dpo = DagPartOrd::empty();
    assert_eq!(dpo.le(&5u8, &5u8), Ok(true));
    dpo = dpo.add(5, 5).unwrap();
    assert_eq!(dpo.le(&5, &5), Ok(true));
    assert_eq!(dpo.lt(&5, &5), Ok(false));
    assert_eq!(dpo.lt(&5, &6), Ok(false));
}

#[test]
fn dag_unknown_is_incomparable() {
    let mut dpo = DagPartOrd::empty();
    dpo = dpo.add(1u8, 2u8).unwrap();
    dpo = dpo.add(2, 3).unwrap();
    for known in [1u8, 2, 3] {
        assert_eq!(dpo.lt(&77, &known), Ok(false));
        assert_eq!(dpo.lt(&known, &77), Ok(false));
    }
    assert_eq!(dpo.lt(&77, &78), Ok(false));
    assert_eq!(dpo.lt(&77, &77), Ok(false));
}

#[test]
fn dag_unrelated_stay_unrelated() {
    let mut dpo = DagPartOrd::empty();
    dpo = dpo.add('a', 'b').unwrap();
    dpo = dpo.add('c', 'd').unwrap();
    assert_eq!(dpo.le(&'a', &'d'), Ok(false));
    assert_eq!(dpo.le(&'a', &'c'), Ok(false));
    assert_eq!(dpo.le(&'c', &'b'), Ok(false));
    assert_eq!(dpo.le(&'a', &'b'), Ok(true));
    assert_eq!(dpo.le(&'c', &'d'), Ok(true));
}

#[test]
fn dag_long_chain() {
    let n = 5000u32;
    let mut dpo = DagPartOrd::empty();
    for i in 0..n {
        dpo = dpo.add(i, i + 1).unwrap();
    }
    assert_eq!(dpo.le(&0, &n), Ok(true));
    assert_eq!(dpo.le(&n, &0), Ok(false));
    assert_eq!(dpo.le(&1700, &2300), Ok(true));
    assert_eq!(dpo.le(&2300, &1700), Ok(false));
    assert!(dpo.add(n, 0).is_err());
}

#[test]
fn dag_search_goes_forward_only() {
    let mut dpo = DagPartOrd::empty();
    dpo = dpo.add(1u8, 2u8).unwrap();
    dpo = dpo.add(2, 3).unwrap();
    dpo = dpo.add(4, 3).unwrap();
    assert_eq!(dpo.lt(&1, &2), Ok(true));
    assert_eq!(dpo.lt(&1, &3), Ok(true));
    assert_eq!(dpo.lt(&4, &3), Ok(true));
    assert_eq!(dpo.lt(&3, &1), Ok(false));
    assert_eq!(dpo.lt(&1, &4), Ok(false));
    assert_eq!(dpo.lt(&4, &2), Ok(false));
}

#[test]
fn dag_le_is_equal_or_lt() {
    let mut dpo = DagPartOrd::empty();
    dpo = dpo.add(1u8, 2u8).unwrap();
    dpo = dpo.add(2, 3).unwrap();
    for x in 0u8..5 {
        for y in 0u8..5 {
            assert_eq!(dpo.le(&x, &y).unwrap(), x == y || dpo.lt(&x, &y).unwrap());
        }
    }
}

#[test]
fn dag_diamond() {
    let mut dpo = DagPartOrd::empty();
    for layer in 0u32..12 {
        let top = layer * 3;
        dpo = dpo.add(top, top + 1).unwrap();
        dpo = dpo.add(top, top + 2).unwrap();
        dpo = dpo.add(top + 1, top + 3).unwrap();
        dpo = dpo.add(top + 2, top + 3).unwrap();
    }
    assert_eq!(dpo.le(&0, &36), Ok(true));
    assert_eq!(dpo.le(&36, &0), Ok(false));
    assert_eq!(dpo.le(&1, &2), Ok(false));
    assert!(dpo.add(36, 1).is_err());
}
