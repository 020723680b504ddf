use iris::gpu::GpuContext;
use iris::rng::Rng;
use iris::types::{Point, Rect, Size};

#[test]
fn test_gpu_context() {
    let ctx = GpuContext::default();
    assert!(ctx.is_accelerated());
}

#[test]
fn gpu_context_new_is_accelerated() {
    let ctx = GpuContext::new();
    assert!(ctx.is_accelerated());
    let off = GpuContext { enabled: false };
    assert!(!off.is_accelerated());
}

#[test]
fn test_rng() {
    let mut rng = Rng::new(42);
    let val1 = rng.next_u32();
    let val2 = rng.next_u32();
    assert_ne!(val1, val2);

    // The unit-interval draw scales the next 32-bit value by u32::MAX.
    let f = (rng.next_u32() as f32) / (u32::MAX as f32);
    assert!((0.0..1.0).contains(&f));
}

#[test]
fn rng_seed_42_values() {
    let mut rng = Rng::new(42);
    assert_eq!(rng.next_u64(), 18099528520786701773);
    assert_eq!(rng.next_u64(), 2631744427930956552);
    let mut again = Rng::new(42);
    assert_eq!(again.next_u32(), 4214124875);
    assert_eq!(again.next_u32(), 612750749);
    assert_eq!(again.next_u32(), 3995083053);
}

#[test]
fn rng_is_deterministic_and_default_seed() {
    let mut a = Rng::new(7);
    let mut b = Rng::new(7);
    for _ in 0..20 {
        assert_eq!(a.next_u64(), b.next_u64());
    }
    let mut d = Rng::default();
    let mut e = Rng::new(123456789);
    assert_eq!(d.next_u64(), 3726282300425983938);
    assert_eq!(e.next_u64(), 3726282300425983938);
}

#[test]
fn test_types() {
    let p = Point::new(10, 20);
    assert_eq!(p.x, 10);
    assert_eq!(p.y, 20);

    let r = Rect::new(0, 0, 100, 200);
    assert_eq!(r.width, 100);
    assert_eq!(r.height, 200);

    let s = Size::new(800, 600);
    assert_eq!(s.width, 800);
    assert_eq!(s.height, 600);
}

#[test]
fn test_core_types() {
    let p = Point::new(10, 20);
    assert_eq!(p.x, 10);
    assert_eq!(p.y, 20);

    let r = Rect::new(1, 2, 3, 4);
    assert_eq!(r.x, 1);
    assert_eq!(r.y, 2);
    assert_eq!(r.width, 3);
    assert_eq!(r.height, 4);

    let s = Size::new(100, 200);
    assert_eq!(s.width, 100);
    assert_eq!(s.height, 200);
}
