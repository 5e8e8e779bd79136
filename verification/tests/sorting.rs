use wpic::files::FileItem;
use wpic::sorting::sort;

#[test]
fn sorting_is_stable_and_keeps_everything() {
    let mut x: u64 = 12345;
    let mut v: Vec<FileItem> = Vec::new();
    for n in 0..300u64 {
        x = x.wrapping_mul(6364136223846793005).wrapping_add(1442695040888963407);
        let t = (x >> 60) as i64;
        v.push(FileItem { path: String::new(), mtime: t, ext: String::new(), size: n });
    }
    let mut expected: Vec<(i64, u64)> = v.iter().map(|f| (f.mtime, f.size)).collect();
    expected.sort_by_key(|p| p.0);
    let sorted: Vec<(i64, u64)> = sort(v).iter().map(|f| (f.mtime, f.size)).collect();
    assert_eq!(sorted, expected);
}
