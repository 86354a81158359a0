use bioinformatics::fmindex::FMIndex;

#[test]
fn it_works() {
    let index = FMIndex::new("example".as_bytes());
    assert_eq!(index.ibwt(), "example".as_bytes().to_vec());
}

#[test]
fn transform_of_abracadabra() {
    let index = FMIndex::new(b"abracadabra");
    assert_eq!(index.bwt_l, b"ard$rcaaaabb".to_vec());
    assert_eq!(index.directory, vec![11, 10, 7, 0, 3, 5, 8, 1, 4, 6, 9, 2]);
    assert_eq!(index.ibwt(), b"abracadabra".to_vec());
}

#[test]
fn matches_and_count() {
    let index = FMIndex::new(b"abracadabra");
    assert_eq!(index.matches(b"abra"), vec![7, 0]);
    assert_eq!(index.count(b"abra"), 2);
    assert_eq!(index.count(b"a"), 5);
    assert_eq!(index.matches(b"zz"), Vec::<usize>::new());
    let small = FMIndex::new(b"example");
    assert_eq!(small.matches(b"e"), vec![6, 0]);
}

#[test]
fn empty_text() {
    let index = FMIndex::new(b"");
    assert_eq!(index.bwt_l, b"$".to_vec());
    assert_eq!(index.ibwt(), Vec::<u8>::new());
}
