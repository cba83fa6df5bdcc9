//! Cache-aside wrapping scenarios: a wrapped fetch function driven against
//! the in-memory store, hitting, missing, expiring, and degrading when the
//! store is unreachable.

use mcache::executor::{AfterRead, CachePolicy, ReadOutcome, on_read, read_step, write_step};
use mcache::key::Bindings;
use mcache::store::MemStore;
use mcache::value::{Field, Value};

#[derive(Debug, PartialEq, Eq)]
struct User {
    id: u64,
    name: String,
}

struct UserParam {
    id: u64,
    token: String,
}

fn user_to_value(u: &Option<User>) -> Value {
    match u {
        None => Value::Null,
        Some(user) => Value::Record(vec![
            Field { name: "id".to_string(), value: Value::UInt(user.id) },
            Field { name: "name".to_string(), value: Value::Text(user.name.clone()) },
        ]),
    }
}

fn value_to_user(v: &Value) -> Option<User> {
    match v {
        Value::Null => None,
        Value::Record(fields) => {
            let mut id: Option<u64> = None;
            let mut name: Option<String> = None;
            for f in fields {
                match (&f.name[..], &f.value) {
                    ("id", Value::UInt(n)) => id = Some(*n),
                    ("name", Value::Text(s)) => name = Some(s.clone()),
                    _ => panic!("unexpected field in cached user"),
                }
            }
            Some(User { id: id.expect("id field"), name: name.expect("name field") })
        }
        _ => panic!("unexpected cached shape"),
    }
}

/// The wrapped fetch: same cache-aside protocol as the original wrapped
/// function, with the store and the instant passed explicitly.
fn fetch_user(
    store: &mut MemStore,
    policy: &CachePolicy,
    now_ms: u64,
    id: u64,
    token: String,
    cache_missed: &mut bool,
) -> Option<User> {
    let mut args = Bindings::new();
    args.bind("id", Value::UInt(id));
    args.bind("token", Value::Text(token.clone()));
    let key = policy.key_for(&args).expect("key must derive");
    match read_step(store, &key, now_ms) {
        AfterRead::UseCached(v) => value_to_user(&v),
        AfterRead::BadEntry(_) => panic!("corrupt cache entry"),
        AfterRead::MustCompute => {
            *cache_missed = true;
            let result = if id == 0 {
                None
            } else {
                Some(User { id, name: format!("async_user{}", token) })
            };
            write_step(store, &key, &user_to_value(&result), policy.ttl_ms, now_ms);
            result
        }
    }
}

fn fetch_user_by_struct(
    store: &mut MemStore,
    policy: &CachePolicy,
    now_ms: u64,
    p: &UserParam,
    cache_missed: &mut bool,
) -> Option<User> {
    let mut args = Bindings::new();
    args.bind(
        "p",
        Value::Record(vec![
            Field { name: "id".to_string(), value: Value::UInt(p.id) },
            Field { name: "token".to_string(), value: Value::Text(p.token.clone()) },
        ]),
    );
    let key = policy.key_for(&args).expect("key must derive");
    match read_step(store, &key, now_ms) {
        AfterRead::UseCached(v) => value_to_user(&v),
        AfterRead::BadEntry(_) => panic!("corrupt cache entry"),
        AfterRead::MustCompute => {
            *cache_missed = true;
            let result = if p.id == 0 {
                None
            } else {
                Some(User { id: p.id, name: format!("async_user{}", p.token) })
            };
            write_step(store, &key, &user_to_value(&result), policy.ttl_ms, now_ms);
            result
        }
    }
}

#[test]
fn test_fetch_user_sync() {
    let mut store = MemStore::new();
    let policy = CachePolicy::define("user:{id}-{token}", 10000).expect("template compiles");
    let mut cache_missed = false;
    if let Some(user) = fetch_user(&mut store, &policy, 0, 1, "1".to_string(), &mut cache_missed) {
        assert_eq!(user.id, 1);
    } else {
        assert!(false);
    }
}

#[test]
fn test_fetch_user() {
    let mut store = MemStore::new();
    let policy = CachePolicy::define("user:{id}-{token}", 100).expect("template compiles");
    let policy2 = CachePolicy::define("user2:{p.id}-{p.token}", 100).expect("template compiles");

    let mut missed = false;
    let mut id = 1;
    let mut token = "1";

    assert!(fetch_user(&mut store, &policy, 0, id, token.into(), &mut missed).is_some());
    assert!(missed);

    missed = false;
    assert!(fetch_user(&mut store, &policy, 0, id, token.into(), &mut missed).is_some());
    assert!(!missed);

    id = 0;
    token = "0";

    assert!(fetch_user(&mut store, &policy, 0, id, token.into(), &mut missed).is_none());
    assert!(missed);

    missed = false;
    assert!(fetch_user(&mut store, &policy, 0, id, token.into(), &mut missed).is_none());
    assert!(!missed);

    let mut p = UserParam { id: 1, token: "1".into() };

    assert!(fetch_user_by_struct(&mut store, &policy2, 0, &p, &mut missed).is_some());
    assert!(missed);

    missed = false;
    assert!(fetch_user_by_struct(&mut store, &policy2, 0, &p, &mut missed).is_some());
    assert!(!missed);

    p = UserParam { id: 0, token: "0".into() };

    assert!(fetch_user_by_struct(&mut store, &policy2, 0, &p, &mut missed).is_none());
    assert!(missed);

    missed = false;
    assert!(fetch_user_by_struct(&mut store, &policy2, 0, &p, &mut missed).is_none());
    assert!(!missed);
}

/// A counting computation wrapped with `"item:{id}"`: the second call for
/// the same id is served from the store and does not run the computation.
#[test]
fn cache_aside_counts_one_run_per_key() {
    let mut store = MemStore::new();
    let policy = CachePolicy::define("item:{id}", 10000).expect("template compiles");
    let mut calls: u64 = 0;

    let mut run = |store: &mut MemStore, id: u64, calls: &mut u64| -> (u64, u64) {
        let mut args = Bindings::new();
        args.bind("id", Value::UInt(id));
        let key = policy.key_for(&args).expect("key must derive");
        match read_step(store, &key, 0) {
            AfterRead::UseCached(v) => match v {
                Value::Record(fields) => match (&fields[0].value, &fields[1].value) {
                    (Value::UInt(i), Value::UInt(c)) => (*i, *c),
                    _ => panic!("unexpected cached shape"),
                },
                _ => panic!("unexpected cached shape"),
            },
            AfterRead::BadEntry(_) => panic!("corrupt cache entry"),
            AfterRead::MustCompute => {
                *calls += 1;
                let result = Value::Record(vec![
                    Field { name: "id".to_string(), value: Value::UInt(id) },
                    Field { name: "calls_so_far".to_string(), value: Value::UInt(*calls) },
                ]);
                write_step(store, &key, &result, policy.ttl_ms, 0);
                (id, *calls)
            }
        }
    };

    let first = run(&mut store, 1, &mut calls);
    assert_eq!(first, (1, 1));
    assert_eq!(calls, 1);

    let second = run(&mut store, 1, &mut calls);
    assert_eq!(second, (1, 1));
    assert_eq!(calls, 1);

    // A distinct key misses independently and leaves the first untouched.
    let other = run(&mut store, 2, &mut calls);
    assert_eq!(other, (2, 2));
    assert_eq!(calls, 2);

    let first_again = run(&mut store, 1, &mut calls);
    assert_eq!(first_again, (1, 1));
    assert_eq!(calls, 2);
}

/// With ttl = 100 ms, a second call 150 ms later misses and recomputes.
#[test]
fn ttl_expiry_recomputes() {
    let mut store = MemStore::new();
    let policy = CachePolicy::define("item:{id}", 100).expect("template compiles");
    let mut args = Bindings::new();
    args.bind("id", Value::UInt(1));
    let key = policy.key_for(&args).expect("key must derive");

    let mut runs: u64 = 0;
    for now in [0u64, 150u64] {
        match read_step(&store, &key, now) {
            AfterRead::MustCompute => {
                runs += 1;
                write_step(&mut store, &key, &Value::UInt(runs), policy.ttl_ms, now);
            }
            _ => panic!("expected a miss"),
        }
    }
    assert_eq!(runs, 2);

    // Before expiry the entry is served.
    assert!(matches!(read_step(&store, &key, 249), AfterRead::UseCached(Value::UInt(2))));
    // At the expiry instant it is gone.
    assert!(matches!(read_step(&store, &key, 250), AfterRead::MustCompute));
}

/// An unreachable store degrades to a miss on every call: the computation
/// still produces its result each time, and nothing panics.
#[test]
fn store_failure_degrades_gracefully() {
    let mut calls: u64 = 0;
    let mut run = |calls: &mut u64| -> u64 {
        match on_read(ReadOutcome::StoreUnavailable) {
            AfterRead::MustCompute => {
                *calls += 1;
                // The write-back would fail too; the result is still returned.
                *calls
            }
            _ => panic!("an unreachable store must degrade to a miss"),
        }
    };
    assert_eq!(run(&mut calls), 1);
    assert_eq!(run(&mut calls), 2);
    assert_eq!(calls, 2);
}
