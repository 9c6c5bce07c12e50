use osap_host::types::{Rect, Status};

#[test]
fn a_union_ignores_empty_rectangles() {
    let a = Rect::new(10, 10, 5, 5);
    let b = Rect::new(0, 12, 3, 10);
    assert_eq!(a.union(&b), Rect::new(0, 10, 15, 12));
    assert_eq!(a.union(&Rect::default()), a);
    assert_eq!(Rect::default().union(&b), b);
    assert_eq!(Rect::new(0, 0, 40_000, 40_000).area(), 1_600_000_000);
    assert_eq!(Rect::new(5, 5, -1, 4).area(), 0);
}

#[test]
fn a_union_of_regions_far_apart_is_capped_rather_than_overflowing() {
    let a = Rect::new(-2_000_000_000, 0, 10, 10);
    let b = Rect::new(2_000_000_000, -2_000_000_000, 10, 10);
    let u = a.union(&b);
    assert_eq!((u.x, u.y), (-2_000_000_000, -2_000_000_000));
    assert_eq!((u.w, u.h), (i32::MAX, 2_000_000_010), "four billion wide, capped; two billion tall");
    assert!(!u.is_empty());
    let edge = Rect::new(i32::MAX - 5, 0, 5, 5).union(&Rect::new(0, 0, 1, 1));
    assert_eq!(edge, Rect::new(0, 0, i32::MAX, 5));
}

#[test]
fn statuses_have_the_names_the_documentation_uses() {
    let all = [Status::Text, Status::Blank, Status::Nothing, Status::Failed, Status::Stale];
    let names: Vec<&str> = all.iter().map(|s| s.as_str()).collect();
    assert_eq!(names, ["text", "blank", "none", "failed", "stale"]);
}

#[test]
fn a_rectangle_contains_its_parts_and_meets_its_neighbours() {
    let r = Rect::new(0, 0, 10, 10);
    assert!(r.contains(&Rect::new(2, 2, 3, 3)));
    assert!(!r.contains(&Rect::new(8, 8, 3, 3)));
    assert!(r.contains(&Rect::new(50, 50, 0, 0)), "an empty region lies anywhere");
    assert_eq!(r.intersect(&Rect::new(5, 5, 10, 10)), Some(Rect::new(5, 5, 5, 5)));
    assert_eq!(r.intersect(&Rect::new(10, 0, 5, 5)), None);
    assert_eq!((r.right(), r.bottom()), (10, 10));
    assert_eq!(Rect::from_tuple(r.tuple()), r);
}
