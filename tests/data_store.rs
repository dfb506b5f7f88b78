use exercises::data_store::{collision_sys, dir_sys, move_sys, steer, Dir, Pos, Strength, VecStore};
use exercises::id_generator::GenData;

#[test]
fn vec_store_add_get_drop() {
    let mut store = VecStore::new();
    let a = GenData { pos: 2, gen: 0 };
    store.add(a, 10);
    assert_eq!(store.get(a), Some(&10));
    assert_eq!(store.get(GenData { pos: 2, gen: 1 }), None);
    assert_eq!(store.get(GenData { pos: 0, gen: 0 }), None);
    assert_eq!(store.get(GenData { pos: 9, gen: 0 }), None);

    store.drop(GenData { pos: 2, gen: 1 });
    assert_eq!(store.get(a), Some(&10));
    store.drop(a);
    assert_eq!(store.get(a), None);

    let b = GenData { pos: 2, gen: 1 };
    store.add(b, 20);
    *store.get_mut(b).unwrap() += 1;
    assert_eq!(store.get(b), Some(&21));
    assert!(store.get_mut(a).is_none());
}

#[test]
fn move_sys_moves_only_matching_ids() {
    let mut dirs = VecStore::new();
    let mut poss = VecStore::new();
    let a = GenData { pos: 0, gen: 0 };
    let b = GenData { pos: 1, gen: 3 };
    let c = GenData { pos: 2, gen: 0 };
    dirs.add(a, Dir { vx: 1, vy: -1 });
    dirs.add(GenData { pos: 1, gen: 2 }, Dir { vx: 5, vy: 5 });
    poss.add(a, Pos { x: 10, y: 10 });
    poss.add(b, Pos { x: 0, y: 0 });
    poss.add(c, Pos { x: 7, y: 7 });

    move_sys(&dirs, &mut poss);

    let pa = poss.get(a).unwrap();
    assert_eq!((pa.x, pa.y), (11, 9));
    let pb = poss.get(b).unwrap();
    assert_eq!((pb.x, pb.y), (0, 0));
    let pc = poss.get(c).unwrap();
    assert_eq!((pc.x, pc.y), (7, 7));
}

fn dir(vx: i32, vy: i32) -> Dir {
    Dir { vx, vy }
}

#[test]
fn steer_rolls_and_edges() {
    let mid = Pos { x: 10, y: 10 };
    let d = steer(&dir(0, 0), 0, Some(&mid), 80, 24);
    assert_eq!((d.vx, d.vy), (1, 0));
    let d = steer(&dir(0, 0), 1, Some(&mid), 80, 24);
    assert_eq!((d.vx, d.vy), (-1, 0));
    let d = steer(&dir(0, 0), 2, None, 80, 24);
    assert_eq!((d.vx, d.vy), (0, 1));
    let d = steer(&dir(0, 0), 3, None, 80, 24);
    assert_eq!((d.vx, d.vy), (0, -1));
    let d = steer(&dir(3, -3), 4, None, 80, 24);
    assert_eq!((d.vx, d.vy), (3, -3));
    let d = steer(&dir(3, 9), 0, None, 80, 24);
    assert_eq!((d.vx, d.vy), (3, 3));

    let corner = Pos { x: 2, y: 22 };
    let d = steer(&dir(-3, 3), 4, Some(&corner), 80, 24);
    assert_eq!((d.vx, d.vy), (1, -1));
    let tiny = Pos { x: 2, y: 2 };
    let d = steer(&dir(0, 0), 4, Some(&tiny), 5, 5);
    assert_eq!((d.vx, d.vy), (-1, -1));
}

#[test]
fn dir_sys_keeps_directions_in_range() {
    let mut dirs = VecStore::new();
    let mut poss = VecStore::new();
    for i in 0..20 {
        let g = GenData { pos: i, gen: 0 };
        dirs.add(g, dir(100, -100));
        poss.add(g, Pos { x: 40, y: 12 });
    }
    assert!(dirs.steerable());
    dir_sys(&mut dirs, &poss, 80, 24);
    for i in 0..20 {
        let d = dirs.get(GenData { pos: i, gen: 0 }).unwrap();
        assert_eq!((d.vx, d.vy), (3, -3));
    }
    dirs.add(GenData { pos: 3, gen: 1 }, dir(i32::MAX, 0));
    assert!(!dirs.steerable());
}

fn strengths(values: &[(i16, i16)]) -> VecStore<Strength> {
    let mut store = VecStore::new();
    for (i, (s, h)) in values.iter().enumerate() {
        store.add(GenData { pos: i, gen: 0 }, Strength { s: *s, h: *h });
    }
    store
}

fn positions(values: &[(i32, i32)]) -> VecStore<Pos> {
    let mut store = VecStore::new();
    for (i, (x, y)) in values.iter().enumerate() {
        store.add(GenData { pos: i, gen: 0 }, Pos { x: *x, y: *y });
    }
    store
}

fn strength_at(store: &VecStore<Strength>, i: usize) -> (i16, i16) {
    let st = store.get(GenData { pos: i, gen: 0 }).unwrap();
    (st.s, st.h)
}

#[test]
fn collision_sys_bumps_in_order() {
    let poss = positions(&[(1, 1), (1, 1), (5, 5)]);
    let mut st = strengths(&[(3, 5), (2, 2), (1, 1)]);
    collision_sys(&poss, &mut st);
    assert_eq!(strength_at(&st, 0), (4, 6));
    assert_eq!(strength_at(&st, 1), (2, -1));
    assert_eq!(strength_at(&st, 2), (1, 1));
}

#[test]
fn collision_sys_negative_strength_gains_nothing() {
    let poss = positions(&[(1, 1), (1, 1)]);
    let mut st = strengths(&[(3, 5), (-5, 2)]);
    collision_sys(&poss, &mut st);
    assert_eq!(strength_at(&st, 0), (3, 10));
    assert_eq!(strength_at(&st, 1), (-5, -1));
}

fn store_through_trait<S: exercises::data_store::EcsStore<i32>>(store: &mut S) -> Option<i32> {
    let g = GenData { pos: 1, gen: 4 };
    store.add(g, 5);
    *store.get_mut(g).unwrap() += 1;
    store.drop(GenData { pos: 1, gen: 3 });
    let kept = store.get(g).copied();
    store.drop(g);
    assert!(store.get(g).is_none());
    kept
}

#[test]
fn ecs_store_trait_on_vec_store() {
    let mut store: VecStore<i32> = VecStore::new();
    assert_eq!(store_through_trait(&mut store), Some(6));
}
