use wordplay::char_map::CharMap;
use wordplay::normalized_word::NormalizedChar;

use NormalizedChar::A;

#[test]
fn initialises_empty() {
    let map: CharMap<u8> = CharMap::new_zero();

    for x in map.iter_values() {
        assert_eq!(*x, 0);
    }
}

#[test]
fn sets_value() {
    let mut map: CharMap<u8> = CharMap::new_zero();
    map.set(A, 1);

    assert_eq!(map.get(A), &1);
}

#[test]
fn updates_value() {
    let mut map: CharMap<u8> = CharMap::new_zero();
    let x = map.get_mut(A);
    *x = 1;

    assert_eq!(map.get(A), &1);
}

#[test]
fn swaps_value() {
    let mut map: CharMap<u8> = CharMap::new_zero();
    let mut held = 7;
    map.swap(A, &mut held);

    assert_eq!(held, 0);
    assert_eq!(map.get(A), &7);
}
