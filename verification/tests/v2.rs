use stacks::v2::V2;

#[test]
fn test_default() {
    let v: V2<usize> = V2::default();
    assert_eq!(V2::new(0, 0), v);
}

#[test]
fn test_display() {
    let v = V2::new(3, 4);
    assert_eq!("⟨3, 4⟩", v.to_string());
}

#[test]
fn add_test() {
    let u = V2::new(1., 2.);
    let v = V2::new(10., 20.);
    let w = V2::new(11., 22.);

    assert_eq!(w, u.add(v));
    assert_eq!(w, u.add(*&v));
    assert_eq!(w, (&u).add(v));
    assert_eq!(w, (&u).add(*&v));
}

#[test]
fn new_keeps_the_coordinates() {
    let v = V2::new(2., 3.);
    assert_eq!(2., v.x);
    assert_eq!(3., v.y);
}

#[test]
fn scale_multiplies_both_coordinates() {
    let v = V2::new(3., 4.);
    let u = V2::new(6., 8.);
    assert_eq!(u, v.scale(2.));
    assert_eq!(V2::new(-15, 20), V2::new(3, -4).scale(-5));
}

#[test]
fn inner_product_sums_the_products() {
    let v = V2::new(1., 10.);
    let u = V2::new(2., 4.);
    assert_eq!(42., v.inner_product(&u));
    assert_eq!(-7, V2::new(3, -2).inner_product(&V2::new(-1, 2)));
}

#[test]
fn sub_and_neg() {
    let u = V2::new(1, 2);
    let v = V2::new(10, 20);
    assert_eq!(V2::new(-9, -18), u.sub(v));
    assert_eq!(V2::new(9, 18), (&v).sub(*&u));
    assert_eq!(V2::new(-1, -2), u.neg());
    assert_eq!(V2::new(1.5, -2.5), (&V2::new(-1.5, 2.5)).neg());
}

#[test]
fn display_of_other_coordinates() {
    assert_eq!("⟨-1.5, 0⟩", V2::new(-1.5, 0.).to_string());
    assert_eq!("⟨a, b⟩", V2::new("a", "b").to_string());
}
