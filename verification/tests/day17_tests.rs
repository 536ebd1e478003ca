use advent::day17::{load_bricks, Chamber};

#[test]
fn find_height_many() {
    // first 15 bricks is 25 high
    // every 35 bricks afterwards is a repeating pattern of 53 height
    // this matches the exact number of turns, e.g. no rest left
    let actual: i64 = (((1000000000000 - 15) / 35) * 53) + 25;
    assert_eq!(actual, 1514285714288);
}

#[test]
fn find_height_part_b() {
    // first 71 bricks is 103 high
    // every 1745 bricks afterwards is a repeating pattern of 2737 height
    // for every 1745 bricks, 1 brick is added to the height
    // rest of 939 bricks with 1464 height
    let times: i64 = (1000000000000 - 71) / 1745;
    let start_height = 103;
    let repeat_height = 2737;
    let rest_height = 1464;
    let actual: i64 = (times * repeat_height) + times + start_height + rest_height;
    assert_eq!(actual, 1569054441243);
}

#[test]
fn load_bricks_shapes() {
    let bricks = load_bricks();
    assert_eq!(bricks.len(), 5);
    assert_eq!(bricks[0].height(), 1);
    assert_eq!(bricks[0].width(), 4);
    assert_eq!(bricks[1].height(), 3);
    assert_eq!(bricks[3].width(), 1);
    assert_eq!(bricks[4].bricks().len(), 4);
}

#[test]
fn brick_settles_on_the_floor() {
    let bricks = load_bricks();
    let square = &bricks[4];
    let mut chamber = Chamber {
        bricks: Vec::new(),
        height: 0,
        width: 7,
        position: (2, 4),
    };
    chamber.reset_position(square);
    assert_eq!(chamber.position, (3, 5));
    while chamber.down(square) {}
    assert_eq!(chamber.position, (3, 2));
}

#[test]
fn walls_stop_sideways_motion() {
    let bricks = load_bricks();
    let straight = &bricks[0];
    let mut chamber = Chamber {
        bricks: Vec::new(),
        height: 0,
        width: 7,
        position: (3, 4),
    };
    chamber.left(straight);
    chamber.left(straight);
    chamber.left(straight);
    assert_eq!(chamber.position, (1, 4));
    chamber.right(straight);
    chamber.right(straight);
    chamber.right(straight);
    chamber.right(straight);
    assert_eq!(chamber.position, (4, 4));
}

#[test]
fn stored_bricks_raise_the_height() {
    let mut bricks = load_bricks();
    let mut chamber = Chamber {
        bricks: Vec::new(),
        height: 0,
        width: 7,
        position: (3, 1),
    };
    let square = &mut bricks[4];
    chamber.store_brick(square);
    assert_eq!(chamber.height, 1);
    assert_eq!(chamber.bricks.len(), 4);
    assert!(chamber.bricks.contains(&(3, 1)));
    assert!(chamber.bricks.contains(&(4, 0)));
}
