use agario_core::entity::{FoodCell, PlayerCell, Position, ToBytes};
use agario_core::grid::Grid;

fn food_at(x: i64, y: i64) -> FoodCell {
    FoodCell::new(Position { x, y }, 30)
}

#[test]
fn query_returns_bucket_neighborhood() {
    // world side 5000, buckets of 500 (milli-units)
    let items = vec![
        food_at(100_000, 100_000),   // bucket (0, 0)
        food_at(900_000, 100_000),   // bucket (1, 0)
        food_at(2_600_000, 100_000), // bucket (5, 0)
        food_at(4_900_000, 4_900_000), // bucket (9, 9)
    ];
    let g = Grid::new(5_000_000, 500_000, items);
    // range one bucket around (100, 100)
    let hits = g.query(Position { x: 100_000, y: 100_000 }, 500_000);
    assert!(hits.contains(&0));
    assert!(hits.contains(&1));
    assert!(!hits.contains(&2));
    assert!(!hits.contains(&3));
    // no index reported twice
    let mut seen = vec![false; 4];
    for &h in &hits {
        assert!(!seen[h]);
        seen[h] = true;
    }
}

#[test]
fn query_never_misses_in_circle_items() {
    // the covered square is a superset of the circle when the range is a
    // whole number of buckets
    let items = vec![
        food_at(450_000, 450_000),
        food_at(550_000, 550_000),
        food_at(1_400_000, 450_000),
    ];
    let g = Grid::new(5_000_000, 500_000, items);
    // circle of radius 1000 (= 2 buckets) around (500, 500) holds all three
    let hits = g.query(Position { x: 500_000, y: 500_000 }, 1_000_000);
    assert!(hits.contains(&0));
    assert!(hits.contains(&1));
    assert!(hits.contains(&2));
}

#[test]
fn query_clamps_out_of_world_windows() {
    let items = vec![food_at(100_000, 100_000)];
    let g = Grid::new(5_000_000, 500_000, items);
    // a huge range is clamped to the world's buckets, not an error
    let hits = g.query(Position { x: 4_900_000, y: 4_900_000 }, 10_000_000_000);
    assert_eq!(hits, vec![0]);
}

#[test]
fn query_serialized_concatenates_records() {
    let items = vec![food_at(100_000, 100_000), food_at(150_000, 100_000)];
    let expected: Vec<u8> = items
        .iter()
        .flat_map(|f| f.to_bytes())
        .collect();
    let mut g = Grid::new(5_000_000, 500_000, items);
    let bytes = g.query_serialized(Position { x: 100_000, y: 100_000 }, 500_000);
    assert_eq!(bytes, expected);
    // memoized: a second overlapping query returns the same bytes
    let again = g.query_serialized(Position { x: 100_000, y: 100_000 }, 1_000_000);
    assert_eq!(again, expected);
}

#[test]
fn food_record_layout() {
    let f = food_at(100_000, 200_000);
    let b = f.to_bytes();
    assert_eq!(b.len(), 9);
    assert_eq!(&b[0..4], &100_000u32.to_le_bytes());
    assert_eq!(&b[4..8], &200_000u32.to_le_bytes());
    assert_eq!(b[8], 30);
}

#[test]
fn player_record_layout() {
    let c = PlayerCell::new(Position { x: 100_000, y: 200_000 }, 300);
    let b = c.to_bytes();
    assert_eq!(b.len(), 13);
    assert_eq!(&b[0..4], &100_000u32.to_le_bytes());
    assert_eq!(&b[4..8], &200_000u32.to_le_bytes());
    assert_eq!(&b[8..12], &22_972u32.to_le_bytes());
    assert_eq!(b[12], 255); // hue saturates at the byte range
}

#[test]
fn items_beyond_world_are_invisible() {
    let inside = food_at(100_000, 100_000);
    let outside = FoodCell { pos: Position { x: 6_000_000, y: 100_000 }, ..inside };
    let g = Grid::new(5_000_000, 500_000, vec![inside, outside]);
    let hits = g.query(Position { x: 4_900_000, y: 100_000 }, 10_000_000_000);
    assert_eq!(hits, vec![0]);
}

#[test]
fn window_rounds_up_to_whole_buckets() {
    // an entity one bucket over, well within range: the covered window
    // rounds the range up to whole buckets, so it is found
    let items = vec![food_at(500_000, 100_000)];
    let g = Grid::new(5_000_000, 500_000, items);
    let hits = g.query(Position { x: 499_000, y: 100_000 }, 45_944);
    assert_eq!(hits, vec![0]);
}

#[test]
fn out_of_world_query_points_clamp() {
    // a query point outside the world clamps to valid buckets, no error
    let items = vec![food_at(100_000, 100_000)];
    let g = Grid::new(5_000_000, 500_000, items);
    let hits = g.query(Position { x: -250_000, y: -1 }, 500_000);
    assert_eq!(hits, vec![0]);
    let mut g = g;
    let bytes = g.query_serialized(Position { x: -250_000, y: -1 }, 500_000);
    assert_eq!(bytes.len(), 9);
}
