use persistent_vector::PersistentVector;
use std::cell::Cell;
use std::rc::Rc;

fn filled(n: usize) -> PersistentVector<usize> {
    let mut vec = PersistentVector::new();
    for i in 0..n {
        vec = vec.push(i);
    }
    vec
}

#[test]
fn empty_vector_has_no_elements() {
    let vec: PersistentVector<u8> = PersistentVector::new();
    assert_eq!(vec.len(), 0);
    assert_eq!(vec.get(0), None);
    assert_eq!(vec.shift(), 5);
    assert!(vec.to_vec().is_empty());
}

#[test]
fn append_then_read_small() {
    let vec = filled(100);
    assert_eq!(vec.len(), 100);
    for i in 0..100 {
        assert_eq!(vec.get(i), Some(&i));
        assert_eq!(vec[i], i);
    }
}

#[test]
fn append_then_read_across_three_levels() {
    let n = 40_000;
    let vec = filled(n);
    assert_eq!(vec.len(), n);
    for i in 0..n {
        assert_eq!(vec.get(i), Some(&i));
    }
    assert_eq!(vec.get(n), None);
}

#[test]
fn len_counts_every_push() {
    let mut vec = PersistentVector::new();
    for i in 0..70usize {
        assert_eq!(vec.len(), i);
        vec = vec.push(i);
    }
    assert_eq!(vec.len(), 70);
}

#[test]
fn push_leaves_the_receiver_unchanged() {
    let v = filled(5);
    let w = v.push(50);

    assert_eq!(v.len(), 5);
    assert_eq!(v.get(5), None);
    for i in 0..5 {
        assert_eq!(v[i], i);
        assert_eq!(w[i], i);
    }
    assert_eq!(w.len(), 6);
    assert_eq!(w[5], 50);
}

#[test]
fn two_pushes_on_one_vector_do_not_see_each_other() {
    let v = filled(3);
    let w = v.push(10);
    let x = v.push(20);

    assert_eq!(w[3], 10);
    assert_eq!(x[3], 20);
    assert_eq!(v.len(), 3);
    assert_eq!(v.get(3), None);
    assert_eq!(w.len(), 4);
    assert_eq!(x.len(), 4);
}

#[test]
fn two_pushes_on_a_full_tail_do_not_see_each_other() {
    let v = filled(64);
    let w = v.push(1000);
    let x = v.push(2000);

    assert_eq!(w[64], 1000);
    assert_eq!(x[64], 2000);
    assert_eq!(v.get(64), None);
    for i in 0..64 {
        assert_eq!(v[i], i);
        assert_eq!(w[i], i);
        assert_eq!(x[i], i);
    }
}

#[test]
fn every_version_stays_readable() {
    let mut versions = vec![PersistentVector::new()];
    for i in 0..1100usize {
        let next = versions[i].push(i * 3);
        versions.push(next);
    }
    for (n, version) in versions.iter().enumerate() {
        assert_eq!(version.len(), n);
        assert_eq!(version.get(n), None);
        if n > 0 {
            assert_eq!(version[0], 0);
            assert_eq!(version[n - 1], (n - 1) * 3);
            assert_eq!(version[n / 2], (n / 2) * 3);
        }
    }
}

#[test]
fn full_tail_moves_into_the_trie() {
    let v = filled(32);
    assert_eq!(PersistentVector::<usize>::tail_off(v.len()), 0);

    let w = v.push(32);
    assert_eq!(w.len(), 33);
    assert_eq!(PersistentVector::<usize>::tail_off(w.len()), 32);
    assert_eq!(w[31], 31);
    assert_eq!(w[32], 32);
    for i in 0..33 {
        assert_eq!(w.get(i), Some(&i));
    }
    assert_eq!(w.shift(), 5);

    assert_eq!(v.len(), 32);
    assert_eq!(v[31], 31);
    assert_eq!(v.get(32), None);
}

#[test]
fn elements_survive_the_push_behind_1024() {
    let v = filled(1024);
    let w = v.push(1024);
    assert_eq!(w.len(), 1025);
    for i in 0..1025 {
        assert_eq!(w.get(i), Some(&i));
    }
    for i in 0..1024 {
        assert_eq!(v.get(i), Some(&i));
    }
    assert_eq!(v.get(1024), None);
}

#[test]
fn trie_grows_when_it_is_complete() {
    let v = filled(1056);
    assert_eq!(v.shift(), 5);

    let w = v.push(1056);
    assert_eq!(w.shift(), 10);
    assert_eq!(v.shift(), 5);
    for i in 0..1057 {
        assert_eq!(w.get(i), Some(&i));
    }
    for i in 0..1056 {
        assert_eq!(v.get(i), Some(&i));
    }
}

#[test]
fn trie_grows_a_second_time() {
    let v = filled(32_800);
    assert_eq!(v.shift(), 10);

    let w = v.push(32_800);
    assert_eq!(w.shift(), 15);
    for i in 0..32_801 {
        assert_eq!(w.get(i), Some(&i));
    }
}

#[test]
fn shift_follows_the_length() {
    let mut vec = PersistentVector::new();
    for i in 0..2200usize {
        let expected = if i <= 1056 { 5 } else { 10 };
        assert_eq!(vec.shift(), expected);
        vec = vec.push(i);
    }
}

#[test]
fn tail_off_is_the_largest_multiple_of_32_below_len() {
    let tail_off = PersistentVector::<u8>::tail_off;
    assert_eq!(tail_off(0), 0);
    assert_eq!(tail_off(1), 0);
    assert_eq!(tail_off(31), 0);
    assert_eq!(tail_off(32), 0);
    assert_eq!(tail_off(33), 32);
    assert_eq!(tail_off(64), 32);
    assert_eq!(tail_off(65), 64);
    assert_eq!(tail_off(1024), 992);
    assert_eq!(tail_off(1025), 1024);
    assert_eq!(tail_off(usize::MAX), usize::MAX - 31);
}

#[test]
fn get_out_of_range_is_none() {
    let empty: PersistentVector<u32> = PersistentVector::new();
    assert_eq!(empty.get(0), None);
    assert_eq!(empty.get(usize::MAX), None);

    let three = empty.push(1).push(2).push(3);
    assert_eq!(three.get(2), Some(&3));
    assert_eq!(three.get(3), None);
    assert_eq!(three.get(32), None);
    assert_eq!(three.get(usize::MAX), None);

    let many = filled(100);
    assert_eq!(many.get(99), Some(&99));
    assert_eq!(many.get(100), None);
    assert_eq!(many.get(128), None);
}

#[test]
fn clone_is_a_second_handle() {
    let v = filled(40);
    let c = v.clone();
    assert_eq!(c.len(), 40);
    for i in 0..40 {
        assert_eq!(c[i], v[i]);
    }
    let d = c.push(40);
    assert_eq!(d.len(), 41);
    assert_eq!(c.len(), 40);
    assert_eq!(v.len(), 40);
}

struct Plain(u32);

#[test]
fn elements_need_not_be_cloneable() {
    let mut vec = PersistentVector::new();
    for i in 0..100u32 {
        vec = vec.push(Plain(i));
    }
    for i in 0..100usize {
        assert_eq!(vec[i].0, i as u32);
    }
}

struct Counted(Rc<Cell<usize>>);

impl Drop for Counted {
    fn drop(&mut self) {
        self.0.set(self.0.get() + 1);
    }
}

#[test]
fn every_element_is_dropped_once() {
    let drops = Rc::new(Cell::new(0usize));
    {
        let mut versions = vec![PersistentVector::new()];
        for i in 0..1100usize {
            let next = versions[i].push(Counted(drops.clone()));
            versions.push(next);
        }
        assert_eq!(drops.get(), 0);
        versions.truncate(600);
        assert_eq!(drops.get(), 1100 - 599);
    }
    assert_eq!(drops.get(), 1100);
}
