use incr::bfs::bfs_find_path;
use incr::bfs::GraphSuccessors;
use incr::bfs::SuccList;

struct SuccessorsImpl;

impl GraphSuccessors for SuccessorsImpl {
    fn succ_spec(&self, _node: u32) -> SuccList {
        unreachable!()
    }

    fn successors(&self, node: u32) -> Vec<u32> {
        vec![node + 1, node + 10]
    }
}

struct NoEdges;

impl GraphSuccessors for NoEdges {
    fn succ_spec(&self, _node: u32) -> SuccList {
        unreachable!()
    }

    fn successors(&self, _node: u32) -> Vec<u32> {
        Vec::new()
    }
}

#[test]
fn test_bfs_find_path() {
    let path = bfs_find_path(&vec![0], &SuccessorsImpl, |n| n == 5).unwrap();
    assert_eq!(path, [0, 1, 2, 3, 4, 5]);

    // Test we find the shortest path.
    let path = bfs_find_path(&vec![0], &SuccessorsImpl, |n| n == 100).unwrap();
    assert_eq!(path, [0, 10, 20, 30, 40, 50, 60, 70, 80, 90, 100]);
}

#[test]
fn bfs_root_is_target() {
    let path = bfs_find_path(&vec![7], &SuccessorsImpl, |n| n == 7).unwrap();
    assert_eq!(path, [7]);
}

#[test]
fn bfs_unreachable_target() {
    let r = bfs_find_path(&vec![3], &NoEdges, |n| n == 9);
    assert!(r.is_none());
}
