use std::collections::HashMap;

use kvs::cli::{client_report, Verb};
use kvs::protocol::{get_response, mutation_response};
use kvs::store::replay_order;
use kvs::{Command, CommandPos, KvError, KvStore, COMPACTION_THRESHOLD};

#[derive(Clone, Debug, PartialEq)]
enum Rec {
    Put(String, String),
    Rm(String),
}

fn quoted_len(s: &str) -> u64 {
    serde_json::to_string(s).unwrap().len() as u64
}

fn rec_len(r: &Rec) -> u64 {
    match r {
        Rec::Put(k, v) => 11 + quoted_len(k) + quoted_len(v),
        Rec::Rm(k) => 7 + quoted_len(k),
    }
}

fn to_command(r: &Rec) -> Command {
    match r {
        Rec::Put(k, v) => Command::Put(k.clone(), v.clone()),
        Rec::Rm(k) => Command::Rm(k.clone()),
    }
}

/// Plays the part of the files: each generation's records with their offsets.
struct Disk {
    files: HashMap<u64, Vec<(u64, u64, Rec)>>,
}

struct Engine {
    store: KvStore,
    disk: Disk,
    compactions: usize,
    peak_stale: u64,
}

impl Engine {
    fn open(disk: Disk) -> Engine {
        let found: Vec<u64> = disk.files.keys().cloned().collect();
        let order = replay_order(&found);
        let mut store = KvStore::new();
        for gen in order {
            store.open_generation(gen).unwrap();
            for (start, len, rec) in disk.files[&gen].iter() {
                store.replay(to_command(rec), *start, start + len).unwrap();
            }
        }
        let mut disk = disk;
        let gen = store.next_generation().unwrap();
        store.open_generation(gen).unwrap();
        disk.files.insert(gen, Vec::new());
        Engine { store, disk, compactions: 0, peak_stale: 0 }
    }

    fn append(&mut self, rec: Rec) -> u64 {
        let (gen, pos) = self.store.write_position().unwrap();
        let len = rec_len(&rec);
        self.disk.files.get_mut(&gen).unwrap().push((pos, len, rec));
        len
    }

    fn read(&self, p: CommandPos) -> Rec {
        let file = &self.disk.files[&p.gen];
        let (_, len, rec) = file.iter().find(|(pos, _, _)| *pos == p.pos).unwrap();
        assert_eq!(*len, p.len);
        rec.clone()
    }

    fn compact(&mut self) {
        let plan = self.store.plan_compaction().unwrap();
        let mut copies = Vec::new();
        for m in plan.moves.iter() {
            copies.push((m.to.pos, m.to.len, self.read(m.from)));
        }
        for g in plan.obsolete.iter() {
            self.disk.files.remove(g);
        }
        self.disk.files.insert(plan.gen, copies);
        self.store.commit_compaction(plan);
        self.compactions += 1;
    }

    fn set(&mut self, k: &str, v: &str) {
        let len = self.append(Rec::Put(k.to_string(), v.to_string()));
        let due = self.store.set(k.to_string(), v.to_string(), len).unwrap();
        self.peak_stale = self.peak_stale.max(self.store.stale_bytes());
        if due {
            self.compact();
        }
    }

    fn get(&self, k: &str) -> Option<String> {
        self.store.get(&k.to_string()).map(|p| match self.read(p) {
            Rec::Put(key, v) => {
                assert_eq!(key, k);
                v
            }
            Rec::Rm(_) => panic!("index points at a removal"),
        })
    }

    fn remove(&mut self, k: &str) -> Result<(), KvError> {
        if self.store.get(&k.to_string()).is_none() {
            return Err(KvError::KeyNotFound);
        }
        let len = self.append(Rec::Rm(k.to_string()));
        if self.store.remove(k.to_string(), len)? {
            self.compact();
        }
        Ok(())
    }

    fn close(self) -> Disk {
        self.disk
    }

    fn disk_size(&self) -> u64 {
        self.disk.files.values().map(|f| f.iter().map(|(_, l, _)| *l).sum::<u64>()).sum()
    }
}

fn fresh() -> Engine {
    Engine::open(Disk { files: HashMap::new() })
}

#[test]
fn it_works() {
    assert_eq!(2 + 2, 4);
}

#[test]
fn read_your_write() {
    let mut e = fresh();
    e.set("a", "1");
    assert_eq!(e.get("a"), Some("1".to_string()));
}

#[test]
fn overwrite_keeps_last_value() {
    let mut e = fresh();
    e.set("k", "v1");
    e.set("k", "v2");
    assert_eq!(e.get("k"), Some("v2".to_string()));
}

#[test]
fn delete_then_get_misses() {
    let mut e = fresh();
    e.set("k", "v");
    e.remove("k").unwrap();
    assert_eq!(e.get("k"), None);
}

#[test]
fn remove_missing_is_key_not_found() {
    let mut store = KvStore::new();
    store.open_generation(1).unwrap();
    let r = store.remove("missing".to_string(), 20);
    assert!(matches!(r, Err(KvError::KeyNotFound)));
    assert_eq!(store.write_position(), Some((1, 0)));
}

#[test]
fn reopen_sees_writes_and_not_removals() {
    let mut e = fresh();
    e.set("a", "1");
    e.set("b", "2");
    e.set("a", "3");
    e.remove("b").unwrap();
    let e = Engine::open(e.close());
    assert_eq!(e.get("a"), Some("3".to_string()));
    assert_eq!(e.get("b"), None);
    assert_eq!(e.store.write_position(), Some((2, 0)));
}

#[test]
fn stale_bytes_count_displaced_records() {
    let mut e = fresh();
    e.set("a", "1");
    let first = rec_len(&Rec::Put("a".to_string(), "1".to_string()));
    assert_eq!(e.store.stale_bytes(), 0);
    e.set("a", "22");
    assert_eq!(e.store.stale_bytes(), first);
    e.remove("a").unwrap();
    assert_eq!(e.store.stale_bytes(), first + rec_len(&Rec::Put("a".to_string(), "22".to_string())));
    let e = Engine::open(e.close());
    assert_eq!(e.store.stale_bytes(), first + rec_len(&Rec::Put("a".to_string(), "22".to_string())));
}

#[test]
fn compaction_keeps_every_binding_and_shrinks_disk() {
    let mut e = fresh();
    for i in 0..50 {
        e.set(&format!("key{}", i % 10), &format!("value{}", i));
    }
    e.remove("key3").unwrap();
    let before: Vec<Option<String>> = (0..12).map(|i| e.get(&format!("key{}", i))).collect();
    let live: u64 = (0..10)
        .filter_map(|i| e.store.get(&format!("key{}", i)))
        .map(|p| p.len)
        .sum();
    e.compact();
    let after: Vec<Option<String>> = (0..12).map(|i| e.get(&format!("key{}", i))).collect();
    assert_eq!(before, after);
    assert_eq!(e.disk_size(), live);
    assert_eq!(e.store.stale_bytes(), 0);
    assert_eq!(e.store.write_position(), Some((2, live)));
    assert_eq!(e.disk.files.len(), 1);
}

#[test]
fn compaction_plan_lists_live_records_end_to_end() {
    let mut e = fresh();
    e.set("x", "1");
    e.set("y", "2");
    e.set("x", "3");
    let plan = e.store.plan_compaction().unwrap();
    assert_eq!(plan.gen, 2);
    assert_eq!(plan.obsolete, vec![1]);
    assert_eq!(plan.moves.len(), 2);
    let mut offset = 0;
    for m in plan.moves.iter() {
        assert_eq!(m.to, CommandPos { gen: 2, pos: offset, len: m.from.len });
        assert_eq!(e.store.get(&m.key), Some(m.from));
        offset += m.from.len;
    }
}

#[test]
fn ten_thousand_keys_overwritten_ten_times() {
    let mut e = fresh();
    let value = |round: usize, i: usize| format!("{:0>256}", format!("{}-{}", round, i));
    for i in 0..10_000 {
        e.set(&format!("key{}", i), &value(0, i));
    }
    for round in 1..=10 {
        for i in 0..10_000 {
            e.set(&format!("key{}", i), &value(round, i));
        }
    }
    assert!(e.peak_stale > COMPACTION_THRESHOLD);
    assert!(e.compactions >= 1);
    let e = Engine::open(e.close());
    for i in 0..10_000 {
        assert_eq!(e.get(&format!("key{}", i)), Some(value(10, i)));
    }
}

#[test]
fn two_writers_on_one_key_leave_one_of_their_values() {
    let mut e = fresh();
    e.set("x", "A");
    e.set("x", "B");
    let seen = e.get("x").unwrap();
    assert!(seen == "A" || seen == "B");
    let e = Engine::open(e.close());
    assert_eq!(e.get("x"), Some(seen));
}

#[test]
fn disjoint_writers_each_see_their_last_value() {
    let mut e = fresh();
    for round in 0..5 {
        for w in 0..4 {
            e.set(&format!("w{}", w), &format!("{}-{}", w, round));
        }
    }
    for w in 0..4 {
        assert_eq!(e.get(&format!("w{}", w)), Some(format!("{}-4", w)));
    }
}

#[test]
fn replay_refuses_records_that_are_not_end_to_end() {
    let mut store = KvStore::new();
    assert!(matches!(store.replay(Command::Rm("a".to_string()), 0, 5), Err(KvError::InternalError)));
    store.open_generation(4).unwrap();
    assert!(matches!(store.replay(Command::Put("a".to_string(), "1".to_string()), 3, 10), Err(KvError::InternalError)));
    assert!(matches!(store.replay(Command::Put("a".to_string(), "1".to_string()), 0, 0), Err(KvError::InternalError)));
    store.replay(Command::Put("a".to_string(), "1".to_string()), 0, 19).unwrap();
    assert_eq!(store.get(&"a".to_string()), Some(CommandPos { gen: 4, pos: 0, len: 19 }));
    assert_eq!(store.write_position(), Some((4, 19)));
}

#[test]
fn generations_must_ascend() {
    let mut store = KvStore::new();
    assert_eq!(store.next_generation().unwrap(), 1);
    assert!(matches!(store.open_generation(0), Err(KvError::InternalError)));
    store.open_generation(3).unwrap();
    assert!(matches!(store.open_generation(3), Err(KvError::InternalError)));
    assert!(matches!(store.open_generation(2), Err(KvError::InternalError)));
    assert_eq!(store.next_generation().unwrap(), 4);
    store.open_generation(u64::MAX).unwrap();
    assert!(matches!(store.next_generation(), Err(KvError::InternalError)));
    assert!(matches!(store.plan_compaction(), Err(KvError::InternalError)));
}

#[test]
fn writes_need_an_open_generation_and_a_length() {
    let mut store = KvStore::new();
    assert!(matches!(store.set("a".to_string(), "1".to_string(), 10), Err(KvError::InternalError)));
    store.open_generation(1).unwrap();
    assert!(matches!(store.set("a".to_string(), "1".to_string(), 0), Err(KvError::InternalError)));
    assert_eq!(store.set("a".to_string(), "1".to_string(), 10).unwrap(), false);
    assert_eq!(store.get(&"a".to_string()), Some(CommandPos { gen: 1, pos: 0, len: 10 }));
}

#[test]
fn compaction_is_due_past_the_threshold() {
    let mut store = KvStore::new();
    store.open_generation(1).unwrap();
    assert_eq!(store.set("a".to_string(), "1".to_string(), COMPACTION_THRESHOLD).unwrap(), false);
    assert_eq!(store.set("a".to_string(), "2".to_string(), 10).unwrap(), false);
    assert_eq!(store.stale_bytes(), COMPACTION_THRESHOLD);
    assert_eq!(store.set("a".to_string(), "3".to_string(), 10).unwrap(), true);
}

#[test]
fn replay_order_sorts_and_dedups() {
    assert_eq!(replay_order(&vec![5, 1, 3, 1, 9, 3]), vec![1, 3, 5, 9]);
    assert_eq!(replay_order(&vec![]), Vec::<u64>::new());
}

fn get_report(e: &Engine, k: &str) -> kvs::cli::Report {
    client_report(Verb::Get, get_response(Ok(e.get(k))))
}

#[test]
fn set_then_get_prints_value() {
    let mut e = fresh();
    e.set("a", "1");
    let r = get_report(&e, "a");
    assert_eq!(r.stdout, Some("1".to_string()));
    assert_eq!(r.exit_code, 0);
}

#[test]
fn get_missing_prints_key_not_found() {
    let e = fresh();
    let r = get_report(&e, "missing");
    assert_eq!(r.stdout, Some("Key not found".to_string()));
    assert_eq!(r.exit_code, 0);
}

#[test]
fn rm_missing_exits_with_error() {
    let mut e = fresh();
    let r = client_report(Verb::Rm, mutation_response(e.remove("missing")));
    assert!(r.stderr.unwrap().contains("Key not found"));
    assert_eq!(r.exit_code, 1);
}

#[test]
fn set_set_rm_then_get_prints_key_not_found() {
    let mut e = fresh();
    e.set("k", "v1");
    e.set("k", "v2");
    assert_eq!(client_report(Verb::Rm, mutation_response(e.remove("k"))).exit_code, 0);
    let r = get_report(&e, "k");
    assert_eq!(r.stdout, Some("Key not found".to_string()));
    assert_eq!(r.exit_code, 0);
}
