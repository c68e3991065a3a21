//! Numbers in rising order.

use std::collections::BTreeMap;

use vstd::prelude::*;
use vstd::std_specs::btree;
use vstd::std_specs::cmp::OrdSpec;
use vstd::std_specs::iter::IteratorSpec;

verus! {

/// Whether each number is larger than the one before it.
pub open spec fn rising(numbers: Seq<u64>) -> bool {
    forall|i: int, j: int|
        #![trigger numbers[i], numbers[j]]
        0 <= i < j < numbers.len() ==> numbers[i] < numbers[j]
}

/// The keys of a map, in rising order.
pub fn rising_keys<V>(map: &BTreeMap<u64, V>) -> (keys: Vec<u64>)
    ensures
        rising(keys@),
        forall|key: u64| #[trigger] keys@.contains(key) <==> map@.contains_key(key),
{
    let mut keys: Vec<u64> = Vec::new();
    let entries = map.iter();
    let ghost pairs = entries.remaining();
    for entry in it: entries
        invariant
            it.seq() == pairs,
            keys@.len() == it.index(),
            forall|i: int| 0 <= i < keys@.len() ==> keys@[i] == *(#[trigger] pairs[i]).0,
    {
        keys.push(*entry.0);
    }
    assert(keys@ =~= pairs.map_values(|kv: (&u64, &V)| *kv.0));
    assert(btree::increasing_seq(keys@));
    assert forall|i: int, j: int|
        #![trigger keys@[i], keys@[j]]
        0 <= i < j < keys@.len() implies keys@[i] < keys@[j] by {
        assert(keys@[i].cmp_spec(&keys@[j]) is Less);
    }
    assert forall|key: u64| #[trigger] keys@.contains(key) <==> map@.contains_key(key) by {
        if keys@.contains(key) {
            let i = choose|i: int| 0 <= i < keys@.len() && keys@[i] == key;
            assert(map@.contains_key(*pairs[i].0));
        }
        if map@.contains_key(key) {
            assert(pairs.contains((&key, &map@[key])));
            let i = choose|i: int| 0 <= i < pairs.len() && pairs[i] == (&key, &map@[key]);
            assert(keys@[i] == key);
        }
    }
    keys
}

/// Whether `out` is `numbers` in rising order, each once.
pub open spec fn is_rising_of(out: Seq<u64>, numbers: Seq<u64>) -> bool {
    &&& rising(out)
    &&& forall|n: u64|
        #![trigger out.contains(n)]
        #![trigger numbers.contains(n)]
        out.contains(n) <==> numbers.contains(n)
}

/// Puts numbers in rising order and drops repetitions.
pub fn rising_unique(numbers: &Vec<u64>) -> (out: Vec<u64>)
    ensures
        is_rising_of(out@, numbers@),
        out@.len() == 0 <==> numbers@.len() == 0,
{
    let mut seen: BTreeMap<u64, ()> = BTreeMap::new();
    let mut i: usize = 0;
    while i < numbers.len()
        invariant
            i <= numbers@.len(),
            forall|n: u64| #[trigger]
                seen@.contains_key(n) <==> numbers@.take(i as int).contains(n),
        decreases numbers@.len() - i,
    {
        let ghost before = seen@;
        let _ = seen.insert(numbers[i], ());
        assert forall|n: u64| #[trigger]
            seen@.contains_key(n) <==> numbers@.take(i + 1).contains(n) by {
            assert(numbers@.take(i + 1) =~= numbers@.take(i as int).push(numbers@[i as int]));
            let now = numbers@.take(i + 1);
            let was = numbers@.take(i as int);
            assert(now[i as int] == numbers@[i as int]);
            if was.contains(n) {
                let k = choose|k: int| 0 <= k < was.len() && was[k] == n;
                assert(now[k] == n);
            }
            if now.contains(n) && n != numbers@[i as int] {
                let k = choose|k: int| 0 <= k < now.len() && now[k] == n;
                assert(was[k] == n);
            }
        }
        i = i + 1;
    }
    assert(numbers@.take(numbers@.len() as int) =~= numbers@);
    let out = rising_keys(&seen);
    proof {
        if out@.len() > 0 {
            assert(out@.contains(out@[0]));
        }
        if numbers@.len() > 0 {
            assert(numbers@.contains(numbers@[0]));
            assert(seen@.contains_key(numbers@[0]));
            assert(out@.contains(numbers@[0]));
        }
        assert forall|n: u64|
            #![trigger out@.contains(n)]
            #![trigger numbers@.contains(n)]
            out@.contains(n) <==> numbers@.contains(n) by {
            assert(out@.contains(n) <==> seen@.contains_key(n));
        }
    }
    out
}

/// There is one way only to put numbers in rising order.
pub proof fn law_rising_order_is_unique(a: Seq<u64>, b: Seq<u64>)
    requires
        rising(a),
        rising(b),
        forall|n: u64|
            #![trigger a.contains(n)]
            #![trigger b.contains(n)]
            a.contains(n) <==> b.contains(n),
    ensures
        a == b,
    decreases a.len(),
{
    if a.len() == 0 {
        if b.len() > 0 {
            assert(b.contains(b[0]));
        }
        assert(a =~= b);
    } else {
        assert(a.contains(a.last()));
        let at = choose|i: int| 0 <= i < b.len() && b[i] == a.last();
        assert(b.contains(b.last()));
        let back = choose|i: int| 0 <= i < a.len() && a[i] == b.last();
        assert(a[back] <= a[a.len() - 1]);
        assert(b[at] <= b[b.len() - 1]);
        assert(a.last() == b.last());
        let a1 = a.drop_last();
        let b1 = b.drop_last();
        assert forall|n: u64|
            #![trigger a1.contains(n)]
            #![trigger b1.contains(n)]
            a1.contains(n) <==> b1.contains(n) by {
            if a1.contains(n) {
                let i = choose|i: int| 0 <= i < a1.len() && a1[i] == n;
                assert(a[i] == n && a[i] < a[a.len() - 1]);
                assert(a.contains(n));
                let j = choose|j: int| 0 <= j < b.len() && b[j] == n;
                assert(b1[j] == n);
            }
            if b1.contains(n) {
                let i = choose|i: int| 0 <= i < b1.len() && b1[i] == n;
                assert(b[i] == n && b[i] < b[b.len() - 1]);
                assert(b.contains(n));
                let j = choose|j: int| 0 <= j < a.len() && a[j] == n;
                assert(a1[j] == n);
            }
        }
        law_rising_order_is_unique(a1, b1);
        assert(a =~= a1.push(a.last()));
        assert(b =~= b1.push(b.last()));
    }
}

} // verus!
