use eevee::genome::InnoGen;

#[test]
fn reproduce_test_inno_gen() {
    let mut inno = InnoGen::new(0);
    assert_eq!(inno.head, 0);
    assert_eq!(inno.path((0, 1)), 0);
    assert_eq!(inno.path((1, 2)), 1);
    assert_eq!(inno.path((0, 1)), 0);
    assert_eq!(inno.head, 2);

    let mut inno2 = InnoGen::new(inno.head);
    assert_eq!(inno2.path((1, 0)), 2);
    assert_eq!(inno2.path((0, 1)), 3);
}

#[test]
fn specie_test_inno_gen() {
    let mut inno = InnoGen::new(0);
    assert_eq!(inno.head, 0);
    assert_eq!(inno.path((0, 1)), 0);
    assert_eq!(inno.path((1, 2)), 1);
    assert_eq!(inno.path((0, 1)), 0);
    assert_eq!(inno.head, 2);

    let mut inno2 = InnoGen::new(inno.head);
    assert_eq!(inno2.path((1, 0)), 2);
    assert_eq!(inno2.path((0, 1)), 3);
}

#[test]
fn test_inno_gen_next_id_and_head_monotone() {
    let mut inno = InnoGen::new(7);
    assert_eq!(inno.next_id(), 7);
    assert_eq!(inno.path((3, 4)), 7);
    assert_eq!(inno.next_id(), 8);
    // a path already seen hands back its id and issues nothing new
    assert_eq!(inno.path((3, 4)), 7);
    assert_eq!(inno.next_id(), 8);
    assert_eq!(inno.path((4, 3)), 8);
    assert_eq!(inno.head, 9);
}
