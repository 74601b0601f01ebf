use nano_downloader::plan::{chunk_ranges, share_ranges, CHUNK_SIZE};

#[test]
fn shares_of_even_file() {
    assert_eq!(share_ranges(100, 4), vec![(0, 24), (25, 49), (50, 74), (75, 99)]);
}

#[test]
fn shares_round_up() {
    assert_eq!(share_ranges(10, 4), vec![(0, 2), (3, 5), (6, 8), (9, 9)]);
}

#[test]
fn shares_past_the_end_are_empty() {
    assert_eq!(share_ranges(1, 4), vec![(0, 0), (1, 0), (2, 0), (3, 0)]);
}

#[test]
fn shares_of_empty_file() {
    assert_eq!(share_ranges(0, 3), vec![(0, 0), (0, 0), (0, 0)]);
}

#[test]
fn shares_cover_every_byte_once() {
    for size in 1u64..40 {
        for parts in 1usize..9 {
            let r = share_ranges(size, parts);
            for p in 0..size {
                let n = r.iter().filter(|(s, e)| *s <= p && p <= *e).count();
                assert_eq!(n, 1, "size {} parts {} byte {}", size, parts, p);
            }
        }
    }
}

#[test]
fn chunks_of_small_file() {
    assert_eq!(chunk_ranges(10), vec![(0, 9)]);
    assert_eq!(chunk_ranges(0), vec![]);
}

#[test]
fn chunks_of_larger_file() {
    let total = 2 * CHUNK_SIZE + 5;
    assert_eq!(
        chunk_ranges(total),
        vec![(0, CHUNK_SIZE - 1), (CHUNK_SIZE, 2 * CHUNK_SIZE - 1), (2 * CHUNK_SIZE, total - 1)]
    );
    assert_eq!(chunk_ranges(CHUNK_SIZE), vec![(0, CHUNK_SIZE - 1)]);
}
