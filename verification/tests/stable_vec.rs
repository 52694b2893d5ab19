use crustivity_core::stable_vec::SVec;
use std::cell::Cell;
use std::rc::Rc;

#[test]
fn push_one_item() {
    let mut v = SVec::new();
    v.push(42);
    assert_eq!(v.get(0).copied(), Some(42));
}

#[test]
fn pushing_getting_1000_elems() {
    let mut v = SVec::new();
    for i in 0..1000 {
        assert_eq!(i as usize, v.push(i));
    }

    for i in 0usize..1000 {
        assert_eq!(v.get(i).copied(), Some(i as i32));
    }
}

#[test]
fn push_mut_and_get() {
    let mut v = SVec::new();
    for i in 0..1000 {
        v.push(i);
    }

    for i in 0usize..1200 {
        if let Some(n) = v.get_mut(i) {
            *n += 1;
        }
    }

    for i in 0usize..1000 {
        assert_eq!(v.get(i).copied(), Some((i + 1) as i32));
    }
}

#[test]
fn push_and_remove() {
    let mut v = SVec::new();
    for i in 0..1000 {
        v.push(i);
    }
    assert_eq!("FFFH", v.association_state());
    for i in 0..1000 {
        assert!(v.remove(i).is_some());
    }
    assert_eq!("DDDD", v.association_state());

    for i in 0..1000 {
        v.push(i);
    }
    assert_eq!("FFFH", v.association_state());
}

#[test]
fn empty_vector_holds_nothing() {
    let v: SVec<u8> = SVec::new();
    assert_eq!(v.get(0), None);
    assert_eq!(v.buckets(), 0);
    assert_eq!(v.associations(), 0);
    assert_eq!("", v.association_state());
}

#[test]
fn remove_gives_the_item_back_once() {
    let mut v = SVec::new();
    v.push(7u32);
    v.push(8u32);
    assert_eq!(v.remove(1), Some(8));
    assert_eq!(v.remove(1), None);
    assert_eq!(v.get(1), None);
    assert_eq!(v.get(0).copied(), Some(7));
}

#[test]
fn push_fills_the_first_free_slot() {
    let mut v = SVec::new();
    for i in 0..10u32 {
        v.push(i);
    }
    assert_eq!(v.remove(3), Some(3));
    assert_eq!(v.push(100), 3);
    assert_eq!(v.get(3).copied(), Some(100));
    assert_eq!(v.push(101), 10);
}

#[test]
fn bucket_fills_up_then_a_new_one_starts() {
    let mut v = SVec::new();
    for i in 0..256u32 {
        v.push(i);
    }
    assert_eq!("F", v.association_state());
    assert_eq!(v.buckets(), 1);
    assert_eq!(v.push(256), 256);
    assert_eq!("FH", v.association_state());
    assert_eq!(v.buckets(), 2);
}

#[test]
fn removing_in_a_full_bucket_makes_it_hollow() {
    let mut v = SVec::new();
    for i in 0..512u32 {
        v.push(i);
    }
    assert_eq!("FF", v.association_state());
    assert_eq!(v.remove(300), Some(300));
    assert_eq!("FH", v.association_state());
    assert_eq!(v.push(1), 300);
    assert_eq!("FF", v.association_state());
}

#[test]
fn emptied_bucket_is_dropped_and_its_slot_reused() {
    let mut v = SVec::new();
    for i in 0..512u32 {
        v.push(i);
    }
    for i in 0..256usize {
        assert_eq!(v.remove(i), Some(i as u32));
    }
    assert_eq!("DF", v.association_state());
    assert_eq!(v.buckets(), 1);
    assert_eq!(v.get(300).copied(), Some(300));
    assert_eq!(v.push(9), 256);
    assert_eq!("HF", v.association_state());
    assert_eq!(v.get(0).copied(), Some(9));
}

#[test]
fn removing_first_bucket_after_a_middle_one() {
    let mut v = SVec::new();
    for i in 0..768u32 {
        v.push(i);
    }
    for i in 256..512usize {
        assert_eq!(v.remove(i), Some(i as u32));
    }
    assert_eq!(v.get(600).copied(), Some(600));
    for i in 0..256usize {
        assert_eq!(v.remove(i), Some(i as u32));
    }
    assert_eq!("DDF", v.association_state());
    assert_eq!(v.buckets(), 1);
    assert_eq!(v.get(600), None);
}

#[test]
fn bucket_usage_marks_used_slots() {
    let mut v = SVec::new();
    for i in 0..3u8 {
        v.push(i);
    }
    let usage = v.bucket_usage();
    assert_eq!(usage.len(), 1);
    assert_eq!(usage[0].len(), 256);
    assert!(usage[0].starts_with("|||_"));
    assert!(usage[0][3..].chars().all(|c| c == '_'));
}

struct Counted(Rc<Cell<usize>>);

impl Drop for Counted {
    fn drop(&mut self) {
        self.0.set(self.0.get() + 1);
    }
}

#[test]
fn stranded_items_are_left_undropped() {
    let drops = Rc::new(Cell::new(0usize));
    let mut v = SVec::new();
    for _ in 0..1024 {
        v.push(Counted(drops.clone()));
    }
    // emptying the third range moves the last bucket into its place and
    // leaves the third association naming it while disabled
    for i in 512..768 {
        assert!(v.remove(i).is_some());
    }
    assert_eq!(drops.get(), 256);
    assert_eq!(v.association_state(), "FFDF");
    // emptying the first range moves the last bucket again; the disabled
    // third association is updated in place of the owner of that bucket
    for i in 0..256 {
        assert!(v.remove(i).is_some());
    }
    assert_eq!(drops.get(), 512);
    assert_eq!(v.association_state(), "DFDF");
    assert!(v.get(300).is_some());
    assert!(v.get(800).is_none());
    drop(v);
    // the 256 items of the fourth range are never dropped
    assert_eq!(drops.get(), 768);
}
