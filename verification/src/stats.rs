//! The recording daemon's tally: bytes sent and received per program and peer
//! since the last flush, and the rows that a flush writes out.
use vstd::prelude::*;
use crate::addr::parse_addr;
use crate::common::{Addr, Direction, Event};
use crate::text::{chars_of, string_from_chars};

verus! {

/// Bytes sent and received.
#[derive(Clone, Copy, Debug, PartialEq, Eq, Structural)]
pub struct TrafficStat {
    pub send: u64,
    pub recv: u64,
}

/// A program (its executable's path, `None` when unknown) and a peer address (as text).
#[derive(Debug)]
pub struct TrafficStatKey {
    pub exe: Option<String>,
    pub raddr: String,
}

/// A key by its text.
pub open spec fn key_view(k: TrafficStatKey) -> (Option<Seq<char>>, Seq<char>) {
    (
        match k.exe {
            Some(s) => Some(s@),
            None => None,
        },
        k.raddr@,
    )
}

/// The suffix that the kernel appends to the path of an executable that was deleted.
pub open spec fn deleted_suffix() -> Seq<char> {
    seq![' ', '(', 'd', 'e', 'l', 'e', 't', 'e', 'd', ')']
}

/// `s` without any number of trailing " (deleted)" suffixes.
pub open spec fn trim_deleted(s: Seq<char>) -> Seq<char>
    decreases s.len(),
{
    if s.len() >= 10 && s.skip(s.len() - 10) == deleted_suffix() {
        trim_deleted(s.take(s.len() - 10))
    } else {
        s
    }
}

fn ends_with_deleted(v: &Vec<char>, n: usize) -> (b: bool)
    requires
        n <= v@.len(),
    ensures
        b == (n >= 10 && v@.take(n as int).skip(n - 10) == deleted_suffix()),
{
    if n < 10 {
        return false;
    }
    let suffix: [char; 10] = [' ', '(', 'd', 'e', 'l', 'e', 't', 'e', 'd', ')'];
    let mut i: usize = 0;
    while i < 10
        invariant
            n >= 10,
            n <= v@.len(),
            0 <= i <= 10,
            suffix@ == deleted_suffix(),
            forall|j: int| 0 <= j < i ==> v@[n - 10 + j] == suffix@[j],
        decreases 10 - i,
    {
        if v[n - 10 + i] != suffix[i] {
            proof {
                assert(v@.take(n as int).skip(n - 10)[i as int] != deleted_suffix()[i as int]);
            }
            return false;
        }
        i = i + 1;
    }
    assert(v@.take(n as int).skip(n - 10) =~= deleted_suffix());
    true
}

/// The path of an executable as the kernel reports it, without the " (deleted)"
/// suffixes that mark a replaced or removed file.
pub fn clean_exe_path(path: &str) -> (s: String)
    ensures
        s@ == trim_deleted(path@),
{
    let v = chars_of(path);
    let mut n: usize = v.len();
    assert(v@.take(n as int) =~= v@);
    while ends_with_deleted(&v, n)
        invariant
            n <= v@.len(),
            trim_deleted(v@.take(n as int)) == trim_deleted(path@),
            v@ == path@,
        decreases n,
    {
        proof {
            assert(v@.take(n as int).take(n - 10) =~= v@.take(n - 10));
        }
        n = n - 10;
    }
    let mut out: Vec<char> = Vec::new();
    let mut i: usize = 0;
    while i < n
        invariant
            n <= v@.len(),
            0 <= i <= n,
            out@ == v@.take(i as int),
        decreases n - i,
    {
        out.push(v[i]);
        i = i + 1;
        assert(out@ =~= v@.take(i as int));
    }
    assert(trim_deleted(v@.take(n as int)) == v@.take(n as int));
    string_from_chars(&out)
}

impl TrafficStatKey {
    /// The key of traffic by the program at path `exe` (read from the process
    /// table) with the peer `raddr`.
    pub fn new(exe: Option<String>, raddr: &Addr) -> (k: TrafficStatKey)
        ensures
            k.exe == exe,
            k.raddr@ == crate::addr::addr_text(*raddr),
    {
        TrafficStatKey { exe, raddr: parse_addr(raddr) }
    }
}

/// One row written by a flush: the tally of one program and peer over the
/// recording interval that starts at `timestamp`, with the byte counts as the
/// signed integers that the database stores.
#[derive(Debug)]
pub struct StatRow {
    pub timestamp: i64,
    pub exe: Option<String>,
    pub raddr: String,
    pub send: i64,
    pub recv: i64,
}

/// The tally since the last flush: one entry per program and peer.
pub struct Stats {
    entries: Vec<(TrafficStatKey, TrafficStat)>,
}

/// The tally of `key` among `entries`, if it has one.
pub open spec fn lookup(entries: Seq<((Option<Seq<char>>, Seq<char>), TrafficStat)>, key: (Option<Seq<char>>, Seq<char>)) -> Option<TrafficStat>
    decreases entries.len(),
{
    if entries.len() == 0 {
        None
    } else if entries.last().0 == key {
        Some(entries.last().1)
    } else {
        lookup(entries.drop_last(), key)
    }
}

/// Total bytes of one direction over a tally.
pub open spec fn total(entries: Seq<((Option<Seq<char>>, Seq<char>), TrafficStat)>, dir: Direction) -> nat
    decreases entries.len(),
{
    if entries.len() == 0 {
        0
    } else {
        total(entries.drop_last(), dir) + (if dir == Direction::Send { entries.last().1.send } else { entries.last().1.recv }) as nat
    }
}

/// `stat` with `bytes` more in direction `dir`.
pub open spec fn added(stat: TrafficStat, dir: Direction, bytes: nat) -> TrafficStat {
    if dir == Direction::Send {
        TrafficStat { send: (stat.send + bytes) as u64, recv: stat.recv }
    } else {
        TrafficStat { send: stat.send, recv: (stat.recv + bytes) as u64 }
    }
}

/// A tally with no bytes.
pub open spec fn zero() -> TrafficStat {
    TrafficStat { send: 0, recv: 0 }
}

/// `bytes` more in direction `dir` for `key` fit in the tally.
pub open spec fn fits_spec(entries: Seq<((Option<Seq<char>>, Seq<char>), TrafficStat)>, key: (Option<Seq<char>>, Seq<char>), dir: Direction, bytes: nat) -> bool {
    let s = match lookup(entries, key) {
        Some(s) => s,
        None => zero(),
    };
    if dir == Direction::Send {
        s.send + bytes <= u64::MAX
    } else {
        s.recv + bytes <= u64::MAX
    }
}

/// `after` is the tally `before` with `bytes` more in direction `dir` for `key`
/// (which fit), and every other key's tally as it was.
pub open spec fn updated(
    before: Seq<((Option<Seq<char>>, Seq<char>), TrafficStat)>,
    after: Seq<((Option<Seq<char>>, Seq<char>), TrafficStat)>,
    key: (Option<Seq<char>>, Seq<char>),
    dir: Direction,
    bytes: nat,
) -> bool {
    &&& fits_spec(before, key, dir, bytes)
    &&& lookup(after, key) == Some(added(
        match lookup(before, key) {
            Some(s) => s,
            None => zero(),
        },
        dir,
        bytes,
    ))
    &&& forall|k: (Option<Seq<char>>, Seq<char>)| k != key ==> lookup(after, k) == lookup(before, k)
}

pub open spec fn distinct(entries: Seq<((Option<Seq<char>>, Seq<char>), TrafficStat)>) -> bool {
    forall|i: int, j: int| 0 <= i < j < entries.len() ==> (#[trigger] entries[i]).0 != (#[trigger] entries[j]).0
}

impl View for Stats {
    type V = Seq<((Option<Seq<char>>, Seq<char>), TrafficStat)>;

    /// The entries of the tally, each key by its text, in the order they were created.
    closed spec fn view(&self) -> Seq<((Option<Seq<char>>, Seq<char>), TrafficStat)> {
        self.entries@.map_values(|e: (TrafficStatKey, TrafficStat)| (key_view(e.0), e.1))
    }
}

proof fn lemma_lookup_index(entries: Seq<((Option<Seq<char>>, Seq<char>), TrafficStat)>, i: int)
    requires
        distinct(entries),
        0 <= i < entries.len(),
    ensures
        lookup(entries, entries[i].0) == Some(entries[i].1),
    decreases entries.len(),
{
    if i < entries.len() - 1 {
        assert(entries.last().0 != entries[i].0);
        lemma_lookup_index(entries.drop_last(), i);
    }
}

proof fn lemma_lookup_absent(entries: Seq<((Option<Seq<char>>, Seq<char>), TrafficStat)>, key: (Option<Seq<char>>, Seq<char>))
    requires
        forall|i: int| 0 <= i < entries.len() ==> (#[trigger] entries[i]).0 != key,
    ensures
        lookup(entries, key) is None,
    decreases entries.len(),
{
    if entries.len() > 0 {
        lemma_lookup_absent(entries.drop_last(), key);
    }
}

proof fn lemma_lookup_update(entries: Seq<((Option<Seq<char>>, Seq<char>), TrafficStat)>, i: int, s: TrafficStat, key: (Option<Seq<char>>, Seq<char>))
    requires
        distinct(entries),
        0 <= i < entries.len(),
        key != entries[i].0,
    ensures
        lookup(entries.update(i, (entries[i].0, s)), key) == lookup(entries, key),
    decreases entries.len(),
{
    let after = entries.update(i, (entries[i].0, s));
    if i < entries.len() - 1 {
        assert(after.drop_last() =~= entries.drop_last().update(i, (entries[i].0, s)));
        lemma_lookup_update(entries.drop_last(), i, s, key);
    } else {
        assert(after.drop_last() =~= entries.drop_last());
    }
}

proof fn lemma_total_update(entries: Seq<((Option<Seq<char>>, Seq<char>), TrafficStat)>, i: int, s: TrafficStat, dir: Direction)
    requires
        0 <= i < entries.len(),
    ensures
        total(entries.update(i, (entries[i].0, s)), dir) + (if dir == Direction::Send { entries[i].1.send } else { entries[i].1.recv }) as nat
            == total(entries, dir) + (if dir == Direction::Send { s.send } else { s.recv }) as nat,
    decreases entries.len(),
{
    let after = entries.update(i, (entries[i].0, s));
    if i < entries.len() - 1 {
        assert(after.drop_last() =~= entries.drop_last().update(i, (entries[i].0, s)));
        lemma_total_update(entries.drop_last(), i, s, dir);
    } else {
        assert(after.drop_last() =~= entries.drop_last());
    }
}

fn same_key(a: &TrafficStatKey, b: &TrafficStatKey) -> (r: bool)
    ensures
        r == (key_view(*a) == key_view(*b)),
{
    let same_exe = match (&a.exe, &b.exe) {
        (Some(x), Some(y)) => *x == *y,
        (None, None) => true,
        _ => false,
    };
    let same = same_exe && a.raddr == b.raddr;
    proof {
        if !same {
            if !same_exe {
                assert(key_view(*a).0 != key_view(*b).0);
            } else {
                assert(key_view(*a).1 != key_view(*b).1);
            }
        }
    }
    same
}

impl Stats {
    /// No two entries have the same program and peer.
    pub closed spec fn wf(&self) -> bool {
        distinct(self@)
    }

    /// An empty tally.
    pub fn new() -> (s: Stats)
        ensures
            s.wf(),
            s@.len() == 0,
    {
        Stats { entries: Vec::new() }
    }

    fn find(&self, key: &TrafficStatKey) -> (r: Option<usize>)
        requires
            self.wf(),
        ensures
            r matches Some(i) ==> i < self@.len() && self@[i as int].0 == key_view(*key),
            r is None ==> forall|i: int| 0 <= i < self@.len() ==> (#[trigger] self@[i]).0 != key_view(*key),
    {
        let mut i: usize = 0;
        while i < self.entries.len()
            invariant
                0 <= i <= self.entries@.len(),
                self@.len() == self.entries@.len(),
                forall|j: int| 0 <= j < i ==> (#[trigger] self@[j]).0 != key_view(*key),
            decreases self.entries@.len() - i,
        {
            if same_key(&self.entries[i].0, key) {
                return Some(i);
            }
            i = i + 1;
        }
        None
    }

    /// Whether `bytes` more in direction `dir` for `key` fit in the tally.
    pub fn fits(&self, key: &TrafficStatKey, dir: Direction, bytes: u64) -> (b: bool)
        requires
            self.wf(),
        ensures
            b == fits_spec(self@, key_view(*key), dir, bytes as nat),
    {
        match self.find(key) {
            Some(i) => {
                proof {
                    lemma_lookup_index(self@, i as int);
                }
                let s = self.entries[i].1;
                match dir {
                    Direction::Send => s.send <= u64::MAX - bytes,
                    Direction::Recv => s.recv <= u64::MAX - bytes,
                }
            },
            None => {
                proof {
                    lemma_lookup_absent(self@, key_view(*key));
                }
                true
            },
        }
    }

    /// Adds `bytes` in direction `dir` to the tally of `key` (starting from zero for
    /// a new program and peer); every other tally stays as it was.
    pub fn add(&mut self, key: TrafficStatKey, dir: Direction, bytes: u64)
        requires
            old(self).wf(),
            fits_spec(old(self)@, key_view(key), dir, bytes as nat),
        ensures
            final(self).wf(),
            lookup(final(self)@, key_view(key)) == Some(added(
                match lookup(old(self)@, key_view(key)) {
                    Some(s) => s,
                    None => zero(),
                },
                dir,
                bytes as nat,
            )),
            forall|k: (Option<Seq<char>>, Seq<char>)| k != key_view(key) ==> lookup(final(self)@, k) == lookup(old(self)@, k),
            total(final(self)@, dir) == total(old(self)@, dir) + bytes,
            total(final(self)@, if dir == Direction::Send { Direction::Recv } else { Direction::Send })
                == total(old(self)@, if dir == Direction::Send { Direction::Recv } else { Direction::Send }),
            final(self)@.len() == old(self)@.len() + (if lookup(old(self)@, key_view(key)) is None { 1int } else { 0int }),
            updated(old(self)@, final(self)@, key_view(key), dir, bytes as nat),
    {
        let ghost before = self@;
        let ghost kv = key_view(key);
        let ghost other = if dir == Direction::Send { Direction::Recv } else { Direction::Send };
        match self.find(&key) {
            Some(i) => {
                proof {
                    lemma_lookup_index(before, i as int);
                }
                let s = self.entries[i].1;
                let new_stat = match dir {
                    Direction::Send => TrafficStat { send: s.send + bytes, recv: s.recv },
                    Direction::Recv => TrafficStat { send: s.send, recv: s.recv + bytes },
                };
                self.entries[i].1 = new_stat;
                proof {
                    assert(self@ =~= before.update(i as int, (before[i as int].0, new_stat)));
                    assert forall|a: int, b: int| 0 <= a < b < self@.len() implies (#[trigger] self@[a]).0 != (#[trigger] self@[b]).0 by {
                        assert(self@[a].0 == before[a].0);
                        assert(self@[b].0 == before[b].0);
                    }
                    lemma_lookup_index(self@, i as int);
                    assert forall|k: (Option<Seq<char>>, Seq<char>)| k != kv implies lookup(self@, k) == lookup(before, k) by {
                        lemma_lookup_update(before, i as int, new_stat, k);
                    }
                    lemma_total_update(before, i as int, new_stat, dir);
                    lemma_total_update(before, i as int, new_stat, other);
                }
            },
            None => {
                let new_stat = match dir {
                    Direction::Send => TrafficStat { send: bytes, recv: 0 },
                    Direction::Recv => TrafficStat { send: 0, recv: bytes },
                };
                proof {
                    lemma_lookup_absent(before, kv);
                }
                self.entries.push((key, new_stat));
                proof {
                    assert(self@ =~= before.push((kv, new_stat)));
                    assert(self@.drop_last() =~= before);
                    assert forall|k: (Option<Seq<char>>, Seq<char>)| k != kv implies lookup(self@, k) == lookup(before, k) by {}
                }
            },
        }
    }

    /// Counts one traffic event for `key` (the program and peer of the event).
    pub fn update(&mut self, key: TrafficStatKey, event: &Event)
        requires
            old(self).wf(),
            fits_spec(old(self)@, key_view(key), event.direction, event.bytes as nat),
        ensures
            final(self).wf(),
            lookup(final(self)@, key_view(key)) == Some(added(
                match lookup(old(self)@, key_view(key)) {
                    Some(s) => s,
                    None => zero(),
                },
                event.direction,
                event.bytes as nat,
            )),
            forall|k: (Option<Seq<char>>, Seq<char>)| k != key_view(key) ==> lookup(final(self)@, k) == lookup(old(self)@, k),
            total(final(self)@, event.direction) == total(old(self)@, event.direction) + event.bytes,
            final(self)@.len() == old(self)@.len() + (if lookup(old(self)@, key_view(key)) is None { 1int } else { 0int }),
            updated(old(self)@, final(self)@, key_view(key), event.direction, event.bytes as nat),
    {
        self.add(key, event.direction, event.bytes as u64);
    }

    /// Empties the tally and gives one row per program and peer, stamped with
    /// `timestamp`, in the order of the entries.
    pub fn flush(&mut self, timestamp: i64) -> (rows: Vec<StatRow>)
        requires
            old(self).wf(),
        ensures
            final(self).wf(),
            final(self)@.len() == 0,
            flushed(rows@, old(self)@, timestamp),
    {
        let ghost before = self@;
        let mut entries: Vec<(TrafficStatKey, TrafficStat)> = Vec::new();
        std::mem::swap(&mut entries, &mut self.entries);
        let mut rows: Vec<StatRow> = Vec::new();
        let ghost src = entries@;
        let total_len = entries.len();
        let mut i: usize = 0;
        while entries.len() > 0
            invariant
                entries@ == src.skip(i as int),
                0 <= i <= src.len(),
                i + entries@.len() == src.len(),
                src.len() == total_len,
                before == src.map_values(|e: (TrafficStatKey, TrafficStat)| (key_view(e.0), e.1)),
                rows@.len() == i,
                forall|j: int| 0 <= j < i ==> {
                    &&& (#[trigger] rows@[j]).timestamp == timestamp
                    &&& key_view(TrafficStatKey { exe: rows@[j].exe, raddr: rows@[j].raddr }) == before[j].0
                    &&& rows@[j].send == before[j].1.send as i64
                    &&& rows@[j].recv == before[j].1.recv as i64
                },
                i + entries@.len() == before.len(),
            decreases entries@.len(),
        {
            let (key, stat) = entries.remove(0);
            proof {
                assert(src.skip(i as int)[0] == src[i as int]);
            }
            rows.push(StatRow {
                timestamp,
                exe: key.exe,
                raddr: key.raddr,
                send: stat.send as i64,
                recv: stat.recv as i64,
            });
            i = i + 1;
            proof {
                assert(entries@ =~= src.skip(i as int));
            }
        }
        assert(self@ =~= Seq::<((Option<Seq<char>>, Seq<char>), TrafficStat)>::empty());
        rows
    }
}

/// Counting two events in either order leaves every program and peer with the same
/// tally (where each count fits, in both orders).
pub proof fn lemma_updates_commute(
    e0: Seq<((Option<Seq<char>>, Seq<char>), TrafficStat)>,
    e1: Seq<((Option<Seq<char>>, Seq<char>), TrafficStat)>,
    e2: Seq<((Option<Seq<char>>, Seq<char>), TrafficStat)>,
    f1: Seq<((Option<Seq<char>>, Seq<char>), TrafficStat)>,
    f2: Seq<((Option<Seq<char>>, Seq<char>), TrafficStat)>,
    k1: (Option<Seq<char>>, Seq<char>),
    d1: Direction,
    b1: nat,
    k2: (Option<Seq<char>>, Seq<char>),
    d2: Direction,
    b2: nat,
)
    requires
        updated(e0, e1, k1, d1, b1),
        updated(e1, e2, k2, d2, b2),
        updated(e0, f1, k2, d2, b2),
        updated(f1, f2, k1, d1, b1),
    ensures
        forall|k: (Option<Seq<char>>, Seq<char>)| lookup(e2, k) == lookup(f2, k),
{
    assert forall|k: (Option<Seq<char>>, Seq<char>)| lookup(e2, k) == lookup(f2, k) by {
        if k == k1 && k == k2 {
            let s = match lookup(e0, k) {
                Some(s) => s,
                None => zero(),
            };
            assert(lookup(e1, k) == Some(added(s, d1, b1)));
            assert(lookup(f1, k) == Some(added(s, d2, b2)));
        } else if k == k1 {
            assert(lookup(e1, k2) == lookup(e0, k2));
            assert(lookup(f1, k) == lookup(e0, k));
        } else if k == k2 {
            assert(lookup(f1, k1) == lookup(e0, k1));
            assert(lookup(e1, k) == lookup(e0, k));
        } else {
            assert(lookup(e1, k) == lookup(e0, k));
            assert(lookup(f1, k) == lookup(e0, k));
        }
    }
}

/// `rows` are the tally `entries` written out at `timestamp`: one row per entry, in
/// order, with the entry's program, peer and byte counts.
pub open spec fn flushed(rows: Seq<StatRow>, entries: Seq<((Option<Seq<char>>, Seq<char>), TrafficStat)>, timestamp: i64) -> bool {
    &&& rows.len() == entries.len()
    &&& forall|i: int| 0 <= i < rows.len() ==> {
        &&& (#[trigger] rows[i]).timestamp == timestamp
        &&& key_view(TrafficStatKey { exe: rows[i].exe, raddr: rows[i].raddr }) == entries[i].0
        &&& rows[i].send == entries[i].1.send as i64
        &&& rows[i].recv == entries[i].1.recv as i64
    }
}

/// Bytes of one direction over written rows.
pub open spec fn rows_total(rows: Seq<StatRow>, dir: Direction) -> int
    decreases rows.len(),
{
    if rows.len() == 0 {
        0
    } else {
        rows_total(rows.drop_last(), dir) + (if dir == Direction::Send { rows.last().send } else { rows.last().recv }) as int
    }
}

/// Nothing is lost in writing out: the rows of a flush carry, in each direction,
/// the bytes that the tally held (as long as each count fits the database's signed integers).
pub proof fn lemma_flush_keeps_totals(rows: Seq<StatRow>, entries: Seq<((Option<Seq<char>>, Seq<char>), TrafficStat)>, timestamp: i64, dir: Direction)
    requires
        flushed(rows, entries, timestamp),
        forall|i: int| 0 <= i < entries.len() ==> (#[trigger] entries[i]).1.send <= i64::MAX && entries[i].1.recv <= i64::MAX,
    ensures
        rows_total(rows, dir) == total(entries, dir),
    decreases rows.len(),
{
    if rows.len() > 0 {
        let n = rows.len() - 1;
        assert(flushed(rows.drop_last(), entries.drop_last(), timestamp)) by {
            assert forall|i: int| 0 <= i < n implies (#[trigger] rows.drop_last()[i]).timestamp == timestamp by {
                assert(rows.drop_last()[i] == rows[i]);
            }
        }
        lemma_flush_keeps_totals(rows.drop_last(), entries.drop_last(), timestamp, dir);
        assert(rows[n].send == entries[n].1.send as i64);
    }
}

} // verus!
