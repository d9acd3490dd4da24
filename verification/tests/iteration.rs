use persistent_vector::PersistentVector;

fn filled(n: usize) -> PersistentVector<usize> {
    let mut vec = PersistentVector::new();
    for i in 0..n {
        vec = vec.push(i);
    }
    vec
}

#[test]
fn iterating_the_empty_vector_gives_nothing() {
    let vec: PersistentVector<u8> = PersistentVector::new();
    let mut iter = vec.iter();
    assert_eq!(iter.size_hint(), (0, Some(0)));
    assert_eq!(iter.next(), None);
    assert_eq!(iter.next(), None);
    assert_eq!(iter.size_hint(), (0, Some(0)));
}

#[test]
fn iteration_gives_the_elements_in_index_order() {
    for n in [1usize, 31, 32, 33, 64, 100, 1024, 1056, 1057, 3000] {
        let vec = filled(n);
        let mut iter = vec.iter();
        for i in 0..n {
            assert_eq!(iter.next(), Some(&i));
        }
        assert_eq!(iter.next(), None);
    }
}

#[test]
fn iteration_stays_at_the_end() {
    for n in [3usize, 32, 64, 65] {
        let vec = filled(n);
        let mut iter = vec.iter();
        for _ in 0..n {
            assert!(iter.next().is_some());
        }
        for _ in 0..70 {
            assert_eq!(iter.next(), None);
            assert_eq!(iter.size_hint(), (0, Some(0)));
        }
    }
}

#[test]
fn size_hint_is_what_is_left() {
    let vec = filled(70);
    let mut iter = vec.iter();
    for given in 0..70usize {
        assert_eq!(iter.size_hint(), (70 - given, Some(70 - given)));
        iter.next();
    }
    assert_eq!(iter.size_hint(), (0, Some(0)));
}

#[test]
fn walks_over_one_vector_are_independent() {
    let vec = filled(40);
    let mut first = vec.iter();
    for i in 0..35usize {
        assert_eq!(first.next(), Some(&i));
    }
    let mut second = vec.iter();
    assert_eq!(second.next(), Some(&0));
    assert_eq!(first.next(), Some(&35));
    assert_eq!(second.next(), Some(&1));
    assert_eq!(first.size_hint(), (4, Some(4)));
    assert_eq!(second.size_hint(), (38, Some(38)));
}

#[test]
fn a_walk_sees_the_version_it_was_started_on() {
    let v = filled(20);
    let w = v.push(20).push(21);

    let mut iter = v.iter();
    for i in 0..20usize {
        assert_eq!(iter.next(), Some(&i));
    }
    assert_eq!(iter.next(), None);

    let mut iter = w.iter();
    for i in 0..22usize {
        assert_eq!(iter.next(), Some(&i));
    }
    assert_eq!(iter.next(), None);
}

#[test]
fn to_vec_gives_the_elements_in_index_order() {
    for n in [0usize, 1, 32, 33, 1057] {
        let vec = filled(n);
        let items = vec.to_vec();
        assert_eq!(items.len(), n);
        for i in 0..n {
            assert_eq!(*items[i], i);
        }
    }
}

fn shareable<X: Send + Sync>() {}

#[test]
fn vector_and_walk_can_be_shared_between_threads() {
    shareable::<PersistentVector<u32>>();
    shareable::<persistent_vector::Iter<'static, u32>>();
}
