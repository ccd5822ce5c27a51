use std::sync::{Arc, Mutex};
use std::time::{Duration, Instant};

use mredis::db::Storage;

/// Milliseconds elapsed since `epoch`, the monotonic clock the
/// storage operations run on in these tests.
fn now_ms(epoch: &Instant) -> u64 {
    epoch.elapsed().as_millis() as u64
}

/// Wait without yielding until `ms` milliseconds have passed.
fn wait_ms(ms: u64) {
    let start = Instant::now();
    while start.elapsed() < Duration::from_millis(ms) {}
}

#[test]
fn db_handler_test() {
    let mut storage = Storage::new(100, 8);
    let epoch = Instant::now();

    // check set and get
    storage.set_kv(&b"Key1".to_vec(), &b"V1".to_vec(), 300, now_ms(&epoch));
    let v = storage.get_v(&b"Key1".to_vec(), now_ms(&epoch)).unwrap();
    assert_eq!(v, b"V1".to_vec(), "Value should exist and be V1");
    let v2 = storage.get_v(&b"Key2".to_vec(), now_ms(&epoch));
    assert_eq!(v2, None, "There should be no value for key2");

    // check update
    let old_v = storage
        .set_kv(&b"Key1".to_vec(), &b"UpdateV1".to_vec(), 300, now_ms(&epoch))
        .unwrap();
    assert_eq!(
        old_v,
        b"V1".to_vec(),
        "Set kv on an existing key should return the old value"
    );
    let v1 = storage.get_v(&b"Key1".to_vec(), now_ms(&epoch)).unwrap();
    assert_eq!(
        v1,
        b"UpdateV1".to_vec(),
        "Calling set on existing key should update value"
    );

    // check delete
    let num_deleted = storage.del_entries(&vec![b"Key1".to_vec()]);
    assert_eq!(num_deleted, 1, "should delete 1 key");
    let v2 = storage.get_v(&b"Key1".to_vec(), now_ms(&epoch));
    assert_eq!(v2, None, "Key1 entry should have been deleted");
    storage.set_kv(&b"Key1".to_vec(), &b"V1".to_vec(), 300, now_ms(&epoch));
    storage.set_kv(&b"Key2".to_vec(), &b"V1".to_vec(), 300, now_ms(&epoch));
    let num_deleted = storage.del_entries(&vec![b"Key1".to_vec(), b"Key2".to_vec()]);
    assert_eq!(num_deleted, 2, "should delete 2 key");

    // check ordering
    storage.set_kv(&b"ent1".to_vec(), &b"V1".to_vec(), 180, now_ms(&epoch));
    storage.set_kv(&b"ent2".to_vec(), &b"V1".to_vec(), 300, now_ms(&epoch));
    storage.set_kv(&b"ent3".to_vec(), &b"V1".to_vec(), 100, now_ms(&epoch));
}

#[test]
fn storage_rejects_non_power_of_two_shards() {
    // constructing storage with a non-power-of-two fan-out fails
    assert!(Storage::try_new(1000, 6).is_none());
    assert!(Storage::try_new(1000, 0).is_none());
    assert!(Storage::try_new(1000, 12).is_none());
    // while powers of two are accepted
    assert!(Storage::try_new(1000, 1).is_some());
    assert!(Storage::try_new(1000, 8).is_some());
    assert!(Storage::try_new(1000, 1024).is_some());
}

#[test]
fn ttl_entry_expires() {
    // set(k, v, 10ms); sleep 20ms; get(k) is absent
    let mut storage = Storage::new(100, 8);
    let epoch = Instant::now();
    storage.set_kv(&b"k".to_vec(), &b"v".to_vec(), 10, now_ms(&epoch));
    wait_ms(20);
    assert!(now_ms(&epoch) >= 20);
    assert_eq!(storage.get_v(&b"k".to_vec(), now_ms(&epoch)), None);
}

#[test]
fn ttl_entry_lives_until_deadline() {
    let mut storage = Storage::new(100, 8);
    storage.set_kv(&b"k".to_vec(), &b"v".to_vec(), 10, 1000);
    // just before the deadline the value is still there
    assert_eq!(storage.get_v(&b"k".to_vec(), 1009), Some(b"v".to_vec()));
    // at and past the deadline it is gone
    assert_eq!(storage.get_v(&b"k".to_vec(), 1010), None);
    assert_eq!(storage.get_v(&b"k".to_vec(), 2000), None);
    // an entry without a TTL never expires
    storage.set_kv(&b"p".to_vec(), &b"q".to_vec(), 0, 1000);
    assert_eq!(storage.get_v(&b"p".to_vec(), u64::MAX), Some(b"q".to_vec()));
}

#[test]
fn overwrite_returns_previous_value() {
    // set(k, v1); set(k, v2): get(k) == v2 and the second set
    // returns Some(v1)
    let mut storage = Storage::new(100, 8);
    assert_eq!(storage.set_kv(&b"k".to_vec(), &b"v1".to_vec(), 0, 0), None);
    let prev = storage.set_kv(&b"k".to_vec(), &b"v2".to_vec(), 0, 0);
    assert_eq!(prev, Some(b"v1".to_vec()));
    assert_eq!(storage.get_v(&b"k".to_vec(), 0), Some(b"v2".to_vec()));
}

#[test]
fn del_counts_only_existing_keys() {
    // del([k1, k2, k3]) where only k1 and k2 exist returns 2
    let mut storage = Storage::new(100, 8);
    storage.set_kv(&b"k1".to_vec(), &b"a".to_vec(), 0, 0);
    storage.set_kv(&b"k2".to_vec(), &b"b".to_vec(), 0, 0);
    let n = storage.del_entries(&vec![b"k1".to_vec(), b"k2".to_vec(), b"k3".to_vec()]);
    assert_eq!(n, 2);
    let n = storage.del_entries(&vec![b"k1".to_vec(), b"k2".to_vec(), b"k3".to_vec()]);
    assert_eq!(n, 0);
}

#[test]
fn lazy_eviction_runs_on_later_writes() {
    // an expired entry is dropped by the next write that touches its
    // shard; with one shard every write touches it
    let mut storage = Storage::new(100, 1);
    storage.set_kv(&b"a".to_vec(), &b"1".to_vec(), 10, 0);
    // by now the deadline (10) has passed; this write peeks the
    // expiration index and drops the stale entry before inserting
    storage.set_kv(&b"b".to_vec(), &b"2".to_vec(), 0, 100);
    assert_eq!(storage.get_v(&b"a".to_vec(), 100), None);
    assert_eq!(storage.get_v(&b"b".to_vec(), 100), Some(b"2".to_vec()));
    // an overwrite leaves a stale index pair behind; the cross-check
    // discards it without touching the fresh entry
    storage.set_kv(&b"c".to_vec(), &b"old".to_vec(), 10, 100);
    storage.set_kv(&b"c".to_vec(), &b"new".to_vec(), 0, 200);
    storage.set_kv(&b"d".to_vec(), &b"3".to_vec(), 0, 300);
    storage.set_kv(&b"e".to_vec(), &b"4".to_vec(), 0, 400);
    assert_eq!(storage.get_v(&b"c".to_vec(), 500), Some(b"new".to_vec()));
}

#[test]
fn every_key_routes_back_to_its_value() {
    // many keys spread over all shards still read back exactly what
    // was written
    let mut storage = Storage::new(1000, 16);
    for i in 0..200u8 {
        storage.set_kv(&vec![b'k', i], &vec![b'v', i], 0, 0);
    }
    for i in 0..200u8 {
        assert_eq!(storage.get_v(&vec![b'k', i], 0), Some(vec![b'v', i]));
    }
}

#[test]
fn concurrent_tasks_leave_consistent_state() {
    // N tasks doing set/get/del on overlapping keys leave the store
    // consistent with some serial schedule: every task's private key
    // holds its last write, and the shared key holds one of the
    // written values.
    let rt = tokio::runtime::Builder::new_multi_thread()
        .worker_threads(4)
        .build()
        .unwrap();
    let storage = Arc::new(Mutex::new(Storage::new(1000, 8)));
    let tasks: Vec<_> = (0..8u8)
        .map(|t| {
            let st = Arc::clone(&storage);
            rt.spawn(async move {
                let own_key = vec![b'o', b'w', b'n', t];
                let shared = b"shared".to_vec();
                for round in 0..100u8 {
                    let mut guard = st.lock().unwrap();
                    guard.set_kv(&own_key, &vec![t, round], 0, 0);
                    guard.set_kv(&shared, &vec![t], 0, 0);
                    if round % 3 == 0 {
                        guard.del_entries(&vec![vec![b'g', b'o', b'n', b'e', t]]);
                    }
                    let got = guard.get_v(&own_key, 0).unwrap();
                    assert_eq!(got, vec![t, round], "no torn or lost private write");
                }
            })
        })
        .collect();
    rt.block_on(async {
        for t in tasks {
            t.await.unwrap();
        }
    });
    let guard = storage.lock().unwrap();
    for t in 0..8u8 {
        let own_key = vec![b'o', b'w', b'n', t];
        assert_eq!(guard.get_v(&own_key, 0), Some(vec![t, 99]), "no lost keys");
    }
    let shared = guard.get_v(&b"shared".to_vec(), 0).unwrap();
    assert_eq!(shared.len(), 1);
    assert!(shared[0] < 8, "shared key holds one of the written values");
}
