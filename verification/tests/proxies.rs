use tract_rules::cache::Cache;
use tract_rules::path::Path;
use tract_rules::proxies::{Proxy, SharedTensorsProxy};

#[test]
fn test_tensors_proxy() {
    let mut inputs = SharedTensorsProxy::new(Path::new(vec![0]));
    assert_eq!(inputs.len.get_path(), &Path::new(vec![0, -1]));
    assert_eq!(inputs.index(0).get_path(), &Path::new(vec![0, 0]));
    assert_eq!(inputs.index(2).get_path(), &Path::new(vec![0, 2]));
}

#[test]
fn test_tensor_proxy_datum_type() {
    let mut inputs = SharedTensorsProxy::new(Path::new(vec![0]));
    let input = inputs.index(0);

    assert_eq!(input.datum_type.get_path(), &Path::new(vec![0, 0, 0]));
}

#[test]
fn test_tensor_proxy_rank() {
    let mut inputs = SharedTensorsProxy::new(Path::new(vec![0]));
    let input = inputs.index(0);

    assert_eq!(input.rank.get_path(), &Path::new(vec![0, 0, 1]));
}

#[test]
fn test_tensor_proxy_shape() {
    let mut inputs = SharedTensorsProxy::new(Path::new(vec![0]));
    let input = inputs.index(0);

    assert_eq!(input.shape.index(0).get_path(), &Path::new(vec![0, 0, 2, 0]));
    assert_eq!(input.shape.index(2).get_path(), &Path::new(vec![0, 0, 2, 2]));
}

#[test]
fn test_tensor_proxy_value() {
    let mut inputs = SharedTensorsProxy::new(Path::new(vec![0]));
    let input = inputs.index(0);

    assert_eq!(input.value.get_path(), &Path::new(vec![0, 0, 3]));
    assert_eq!(input.value.root().get_path(), &Path::new(vec![0, 0, 3, -1]));
    assert_eq!(input.value.index(0).get_path(), &Path::new(vec![0, 0, 3, 0]));
    assert_eq!(input.value.index(0).index(1).get_path(), &Path::new(vec![0, 0, 3, 0, 1]));
    assert_eq!(
        input.value.index(1).index(2).index(3).get_path(),
        &Path::new(vec![0, 0, 3, 1, 2, 3])
    );
}

#[test]
fn tensor_children_sit_at_fixed_selectors() {
    let mut inputs = SharedTensorsProxy::new(Path::new(vec![0]));
    let input = inputs.index(0);
    assert_eq!(input.get_path(), &Path::new(vec![0, 0]));
    assert_eq!(input.datum_type.get_path(), &Path::new(vec![0, 0, 0]));
    assert_eq!(input.rank.get_path(), &Path::new(vec![0, 0, 1]));
    assert_eq!(input.shape.get_path(), &Path::new(vec![0, 0, 2]));
    assert_eq!(input.value.get_path(), &Path::new(vec![0, 0, 3]));
}

#[test]
fn indexing_twice_returns_the_same_handle() {
    let mut inputs = SharedTensorsProxy::new(Path::new(vec![0]));
    let first = inputs.index(4).get_path().to_vec();
    let second = inputs.index(4).get_path().to_vec();
    assert_eq!(first, vec![0, 4]);
    assert_eq!(first, second);

    let input = inputs.index(4);
    let d1 = input.shape.index(1).get_path().to_vec();
    let d2 = input.shape.index(1).get_path().to_vec();
    assert_eq!(d1, vec![0, 4, 2, 1]);
    assert_eq!(d1, d2);

    let e1 = input.value.index(0).index(2).get_path().to_vec();
    let e2 = input.value.index(0).index(2).get_path().to_vec();
    assert_eq!(e1, vec![0, 4, 3, 0, 2]);
    assert_eq!(e1, e2);
}

#[test]
fn cache_constructs_once_per_index() {
    let mut cache: Cache<u32> = Cache::new();
    assert!(!cache.contains_key(3));
    cache.insert(3, 7);
    assert!(cache.contains_key(3));
    assert_eq!(*cache.get(3), 7);
    assert_eq!(cache.len(), 1);

    assert!(!cache.contains_key(2));
    cache.insert(2, 9);
    assert_eq!(cache.len(), 2);
    assert_eq!(*cache.get(3), 7);
    assert_eq!(*cache.get(2), 9);
}

#[test]
fn path_operations() {
    let p = Path::new(vec![0, 0, 2]);
    assert_eq!(p.len(), 3);
    assert_eq!(p.component(2), 2);
    assert_eq!(p.child(5), Path::new(vec![0, 0, 2, 5]));
    assert_eq!(p.concat(&Path::new(vec![1, -1])), Path::new(vec![0, 0, 2, 1, -1]));
    assert_eq!(p.to_vec(), vec![0, 0, 2]);
    assert_eq!(p.duplicate(), p);
    assert!(Path::new(vec![0, 1]) != Path::new(vec![0, 2]));
    assert!(Path::new(vec![0, 1]) != Path::new(vec![0, 1, 1]));
}
