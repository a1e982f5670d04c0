use std::rc::Rc;

use janim_backend::cache::RecursiveCache;

#[test]
fn computes_once_then_serves_cached() {
    let mut c: RecursiveCache<u32> = RecursiveCache::new();
    let first = c.get_or_compute(|| Ok::<u32, String>(7), || String::from("cycle"));
    assert_eq!(first.as_deref(), Ok(&7));
    let second = c.get_or_compute(|| Ok::<u32, String>(8), || String::from("cycle"));
    assert_eq!(second.as_deref(), Ok(&7));
    assert!(Rc::ptr_eq(&first.unwrap(), &second.unwrap()));
}

#[test]
fn reset_forces_recompute() {
    let mut c: RecursiveCache<u32> = RecursiveCache::new();
    let _ = c.get_or_compute(|| Ok::<u32, ()>(1), || ());
    c.reset();
    let again = c.get_or_compute(|| Ok::<u32, ()>(2), || ());
    assert_eq!(again.as_deref(), Ok(&2));
}

#[test]
fn failed_compute_leaves_cache_outdated() {
    let mut c: RecursiveCache<u32> = RecursiveCache::new();
    let r = c.get_or_compute(|| Err::<u32, &str>("bad"), || "cycle");
    assert_eq!(r, Err("bad"));
    let r2 = c.get_or_compute(|| Ok::<u32, &str>(3), || "cycle");
    assert_eq!(r2.as_deref(), Ok(&3));
}

#[test]
fn request_while_computing_is_a_cycle() {
    let mut c: RecursiveCache<u32> = RecursiveCache::new();
    assert!(c.start().is_none());
    let r = c.get_or_compute(|| Ok::<u32, &str>(1), || "cycle");
    assert_eq!(r, Err("cycle"));
    let v = c.finish(Some(5));
    assert_eq!(v.as_deref(), Some(&5));
    let r2 = c.get_or_compute(|| Ok::<u32, &str>(1), || "cycle");
    assert_eq!(r2.as_deref(), Ok(&5));
}
