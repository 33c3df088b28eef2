//! The reference backend, operation by operation.

use memcached_core::handler::MemcachedHandler;
use memcached_core::handler::WriteOptions;
use memcached_core::response::MemcachedError;
use memcached_core::response::MemcachedResponse;
use memcached_core::storage::HashMapStorage;

#[test]
fn test_get_if_absent() {
    let storage = HashMapStorage::default();

    let result = storage.get("key".to_string());

    assert_eq!(result, Err(MemcachedError::NotFound));
}

#[test]
fn test_set_and_get() {
    let mut storage = HashMapStorage::default();

    let options = WriteOptions { flags: 0, expire: 0 };
    storage
        .set("key".to_string(), "value".to_string(), options)
        .expect("Can set");
    let result = storage.get("key".to_string());

    assert_eq!(
        result,
        Ok(MemcachedResponse::Value {
            key: "key".to_string(),
            flags: 0,
            expire: 0,
            value: "value".to_string()
        })
    );
}

#[test]
fn test_add_if_absent() {
    let mut storage = HashMapStorage::default();

    let options = WriteOptions { flags: 0, expire: 0 };
    storage
        .add("key".to_string(), "value".to_string(), options)
        .expect("Can add");
}

#[test]
fn test_add_if_exists() {
    let mut storage = HashMapStorage::default();

    let options = WriteOptions { flags: 0, expire: 0 };
    storage
        .set("key".to_string(), "value".to_string(), options.clone())
        .expect("Can set");

    let result = storage.add("key".to_string(), "value2".to_string(), options);
    assert_eq!(result, Err(MemcachedError::AlreadyExists));
}

#[test]
fn test_replace_if_absent() {
    let mut storage = HashMapStorage::default();

    let options = WriteOptions { flags: 0, expire: 0 };

    let result = storage.replace("key".to_string(), "value".to_string(), options);
    assert_eq!(result, Err(MemcachedError::NotFound));
}

#[test]
fn test_replace_if_exists() {
    let mut storage = HashMapStorage::default();

    let options = WriteOptions { flags: 0, expire: 0 };
    storage
        .set("key".to_string(), "value".to_string(), options.clone())
        .expect("Can set");

    storage
        .replace("key".to_string(), "value2".to_string(), options)
        .expect("Can replace");

    let result = storage.get("key".to_string());

    assert_eq!(
        result,
        Ok(MemcachedResponse::Value {
            key: "key".to_string(),
            flags: 0,
            expire: 0,
            value: "value2".to_string()
        })
    );
}

#[test]
fn test_append_if_absent() {
    let mut storage = HashMapStorage::default();

    let options = WriteOptions { flags: 0, expire: 0 };

    let result = storage.append("key".to_string(), "value".to_string(), options);
    assert_eq!(result, Err(MemcachedError::NotFound));
}

#[test]
fn test_append_if_exists() {
    let mut storage = HashMapStorage::default();

    let options = WriteOptions { flags: 0, expire: 0 };
    storage
        .set("key".to_string(), "value".to_string(), options.clone())
        .expect("Can set");

    storage
        .append("key".to_string(), "value2".to_string(), options)
        .expect("Can append");

    let result = storage.get("key".to_string());

    assert_eq!(
        result,
        Ok(MemcachedResponse::Value {
            key: "key".to_string(),
            flags: 0,
            expire: 0,
            value: "valuevalue2".to_string()
        })
    );
}

#[test]
fn test_prepend_if_absent() {
    let mut storage = HashMapStorage::default();

    let options = WriteOptions { flags: 0, expire: 0 };

    let result = storage.prepend("key".to_string(), "value".to_string(), options);
    assert_eq!(result, Err(MemcachedError::NotFound));
}

#[test]
fn test_prepend_if_exists() {
    let mut storage = HashMapStorage::default();

    let options = WriteOptions { flags: 0, expire: 0 };
    storage
        .set("key".to_string(), "value".to_string(), options.clone())
        .expect("Can set");

    storage
        .prepend("key".to_string(), "value2".to_string(), options)
        .expect("Can prepend");

    let result = storage.get("key".to_string());

    assert_eq!(
        result,
        Ok(MemcachedResponse::Value {
            key: "key".to_string(),
            flags: 0,
            expire: 0,
            value: "value2value".to_string()
        })
    );
}

#[test]
fn test_delete_if_absent() {
    let mut storage = HashMapStorage::default();

    let result = storage.delete("key".to_string());
    assert_eq!(result, Err(MemcachedError::NotFound));
}

#[test]
fn test_delete_if_exists() {
    let mut storage = HashMapStorage::default();

    let options = WriteOptions { flags: 0, expire: 0 };
    storage
        .set("key".to_string(), "value".to_string(), options)
        .expect("Can set");

    storage.delete("key".to_string()).expect("Can delete");

    let result = storage.get("key".to_string());

    assert_eq!(result, Err(MemcachedError::NotFound));
}

#[test]
fn test_increment_if_absent() {
    let mut storage = HashMapStorage::default();

    let result = storage.increment("key".to_string(), 5);
    assert_eq!(result, Err(MemcachedError::NotFound));
}

#[test]
fn test_increment_if_exists() {
    let mut storage = HashMapStorage::default();

    let options = WriteOptions { flags: 0, expire: 0 };
    storage
        .set("key".to_string(), "100".to_string(), options.clone())
        .expect("Can set");

    storage.increment("key".to_string(), 5).expect("Can increment");

    let result = storage.get("key".to_string());

    assert_eq!(
        result,
        Ok(MemcachedResponse::Value {
            key: "key".to_string(),
            flags: 0,
            expire: 0,
            value: "105".to_string()
        })
    );
}

#[test]
fn test_increment_cannot_parse_as_integer() {
    let mut storage = HashMapStorage::default();

    let options = WriteOptions { flags: 0, expire: 0 };
    storage
        .set("key".to_string(), "value".to_string(), options.clone())
        .expect("Can set");

    let result = storage.increment("key".to_string(), 5);

    assert_eq!(result, Err(MemcachedError::FailedToParseInteger));

    let result = storage.get("key".to_string());

    assert_eq!(
        result,
        Ok(MemcachedResponse::Value {
            key: "key".to_string(),
            flags: 0,
            expire: 0,
            value: "value".to_string()
        })
    );
}

#[test]
fn test_decrement_if_absent() {
    let mut storage = HashMapStorage::default();

    let result = storage.decrement("key".to_string(), 5);
    assert_eq!(result, Err(MemcachedError::NotFound));
}

#[test]
fn test_decrement_if_exists() {
    let mut storage = HashMapStorage::default();

    let options = WriteOptions { flags: 0, expire: 0 };
    storage
        .set("key".to_string(), "100".to_string(), options.clone())
        .expect("Can set");

    storage.decrement("key".to_string(), 5).expect("Can decrement");

    let result = storage.get("key".to_string());

    assert_eq!(
        result,
        Ok(MemcachedResponse::Value {
            key: "key".to_string(),
            flags: 0,
            expire: 0,
            value: "95".to_string()
        })
    );
}

#[test]
fn test_decrement_cannot_parse_as_integer() {
    let mut storage = HashMapStorage::default();

    let options = WriteOptions { flags: 0, expire: 0 };
    storage
        .set("key".to_string(), "value".to_string(), options.clone())
        .expect("Can set");

    let result = storage.decrement("key".to_string(), 5);

    assert_eq!(result, Err(MemcachedError::FailedToParseInteger));

    let result = storage.get("key".to_string());

    assert_eq!(
        result,
        Ok(MemcachedResponse::Value {
            key: "key".to_string(),
            flags: 0,
            expire: 0,
            value: "value".to_string()
        })
    );
}
