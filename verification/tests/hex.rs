use htmf::hex;
use htmf::hex::{Cube, EvenR};

#[test]
fn some_equivalences() {
    assert_eq!(
        Cube::from_evenr(&EvenR { col: 0, row: 0 }),
        Cube { x: 0, y: 0, z: 0 }
    );
    assert_eq!(
        Cube::from_evenr(&EvenR { col: 1, row: 1 }),
        Cube { x: 0, y: -1, z: 1 }
    );
    assert_eq!(
        Cube::from_evenr(&EvenR { col: 1, row: 2 }),
        Cube { x: 0, y: -2, z: 2 }
    );
    assert_eq!(
        Cube::from_evenr(&EvenR { col: 3, row: 6 }),
        Cube { x: 0, y: -6, z: 6 }
    );
}

#[test]
fn inverse_cube_hex() {
    for row in -10..10 {
        for col in -10..10 {
            assert_eq!(
                EvenR { col: col, row: row },
                EvenR::from_cube(&Cube::from_evenr(&EvenR { col: col, row: row }))
            );
        }
    }
}

#[test]
fn inverse_hex_cube() {
    for x in -10..10 {
        for y in -10..10 {
            let z = -(x + y);
            assert_eq!(
                Cube { x: x, y: y, z: z },
                Cube::from_evenr(&EvenR::from_cube(&Cube { x: x, y: y, z: z }))
            );
        }
    }
}

#[test]
fn cube_neighbors_distinct() {
    let c = Cube::from_evenr(&EvenR { col: 1, row: 2 });
    let neighbors = c.neighbors();
    for &x in neighbors.iter() {
        assert!(x != c);
    }
}

#[test]
fn neighbors_distinct() {
    let c = EvenR { col: 1, row: 2 };
    let neighbors = c.neighbors();
    for &x in neighbors.iter() {
        assert!(x != c);
    }
}

#[test]
fn neighbors_in_line() {
    let c1 = EvenR { col: 1, row: 2 };
    let c2 = EvenR { col: 2, row: 3 };
    assert!(c1.in_line(&c2));
}

#[test]
fn cells_in_line() {
    let c1 = EvenR { col: 1, row: 2 };
    let c2 = EvenR { col: 3, row: 5 };
    assert!(c1.in_line(&c2));
}

#[test]
fn cells_not_in_line() {
    let c1 = EvenR { col: 1, row: 2 };
    let c2 = EvenR { col: 4, row: 6 };
    assert!(!c1.in_line(&c2));
}

#[test]
fn enumerate_line() {
    let c1 = EvenR { col: 0, row: 0 };
    let c2 = EvenR { col: 3, row: 6 };

    let expected_line = vec![
        EvenR { col: 0, row: 0 },
        EvenR { col: 1, row: 1 },
        EvenR { col: 1, row: 2 },
        EvenR { col: 2, row: 3 },
        EvenR { col: 2, row: 4 },
        EvenR { col: 3, row: 5 },
        EvenR { col: 3, row: 6 },
    ];

    let mut walk = hex::line(&c1, &c2);
    for expected in expected_line {
        assert_eq!(walk.next(), Some(expected));
    }
}

#[test]
fn line_is_distinct() {
    let src = EvenR { col: 1, row: 2 };
    let dst = EvenR { col: 2, row: 2 };
    let mut walk = hex::line(&src, &dst);
    let mut ln: Vec<EvenR> = vec![];
    for _ in 0..5 {
        ln.push(walk.next().unwrap());
    }
    for i in 0..ln.len() {
        for j in 0..ln.len() {
            if i == j {
                continue;
            }
            assert_ne!(ln[i], ln[j]);
        }
    }
}

#[test]
fn neighbors_follow_the_six_directions() {
    let c = Cube { x: 2, y: -5, z: 3 };
    let n = c.neighbors();
    assert_eq!(n[0], Cube { x: 3, y: -6, z: 3 });
    assert_eq!(n[1], Cube { x: 3, y: -5, z: 2 });
    assert_eq!(n[2], Cube { x: 2, y: -4, z: 2 });
    assert_eq!(n[3], Cube { x: 1, y: -4, z: 3 });
    assert_eq!(n[4], Cube { x: 1, y: -5, z: 4 });
    assert_eq!(n[5], Cube { x: 2, y: -6, z: 4 });
    let h = EvenR { col: 1, row: 2 };
    let hn = h.neighbors();
    assert_eq!(hn[0], EvenR { col: 2, row: 2 });
    assert_eq!(hn[1], EvenR { col: 2, row: 1 });
    assert_eq!(hn[2], EvenR { col: 1, row: 1 });
    assert_eq!(hn[3], EvenR { col: 0, row: 2 });
    assert_eq!(hn[4], EvenR { col: 1, row: 3 });
    assert_eq!(hn[5], EvenR { col: 2, row: 3 });
}

#[test]
fn line_walks_every_direction() {
    let src = EvenR { col: 3, row: 3 };
    for (d, n) in src.neighbors().iter().enumerate() {
        let mut walk = hex::line(&src, n);
        assert_eq!(walk.next(), Some(src));
        assert_eq!(walk.next(), Some(*n));
        let two = walk.next().unwrap();
        assert_eq!(two, n.neighbors()[d]);
    }
}

#[test]
fn line_make_cube_stays_on_the_line() {
    let src = EvenR { col: 0, row: 0 };
    let dst = EvenR { col: 3, row: 6 };
    let walk = hex::line(&src, &dst);
    let c = walk.make_cube(-4);
    assert_eq!(c, Cube { x: 0, y: -4, z: 4 });
}
