use van_world::preview::pgm;
use van_world::text::{decimal_string, join, order, sorted_names, Order};

#[test]
fn images_have_a_header() {
    let shade = |v: f32| ((v + 1.0) * 127.5).clamp(0.0, 255.0) as u8;
    let bytes = pgm(2, &[-1.0, 0.0, 1.0, 5.0], &shade);
    let mut wanted = b"P5\n2 2\n255\n".to_vec();
    wanted.extend([0, 127, 255, 255]);
    assert_eq!(bytes, wanted);
    assert_eq!(pgm(1024, &[], &shade), b"P5\n1024 1024\n255\n".to_vec());
}

#[test]
fn numerals() {
    for n in [0, 7, 10, 99, 100, 1234567890, u64::MAX] {
        assert_eq!(decimal_string(n), n.to_string());
    }
    assert_eq!(join("ab", "c"), "abc");
}

#[test]
fn alphabetical_order() {
    assert_eq!(order("a", "b"), Order::Before);
    assert_eq!(order("b", "a"), Order::After);
    assert_eq!(order("a", "a"), Order::Same);
    assert_eq!(order("a", "aa"), Order::Before);
    assert_eq!(order("", ""), Order::Same);
    assert_eq!(order("\u{ffff}", "\u{10000}"), Order::Before);
}

#[test]
fn names_are_sorted() {
    let names: Vec<String> = ["xplo", "fostral", "glorx", "", "fostral", "Ark", "ж"]
        .iter()
        .map(|n| n.to_string())
        .collect();
    let mut wanted = names.clone();
    wanted.sort();
    assert_eq!(sorted_names(names), wanted);
    assert_eq!(sorted_names(Vec::new()), Vec::<String>::new());
}
