use netidx_sub::batch::{Batch, BatchPool, BATCH_POOL_CAP};
use netidx_sub::value::{SubId, Value};

#[test]
fn batch_push_len_consume() {
    let mut b = Batch::from_vec(vec![(SubId(1), Value::U32(1))]);
    b.push((SubId(2), Value::U32(2)));
    assert_eq!(b.len(), 2);
    assert_eq!(b.consume(), vec![(SubId(1), Value::U32(1)), (SubId(2), Value::U32(2))]);
    assert_eq!(b.len(), 0);
}

#[test]
fn pool_recycles_empty_buffers_up_to_cap() {
    let mut pool = BatchPool::new();
    let mut b = pool.take();
    assert_eq!(b.len(), 0);
    b.push((SubId(1), Value::Null));
    pool.give_back(b);
    let b = pool.take();
    assert_eq!(b.len(), 0);
    for _ in 0..BATCH_POOL_CAP + 5 {
        pool.give_back(Batch::from_vec(vec![(SubId(0), Value::True)]));
    }
    for _ in 0..BATCH_POOL_CAP + 5 {
        assert_eq!(pool.take().len(), 0);
    }
}
